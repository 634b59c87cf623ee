//! Substitution tables: ordered `from -> into` rules applied as a fold.
use vstd::prelude::*;
use crate::mode::{occurs_at, occurs_at_exec};
use crate::text::{chars_of, copy_chars, push_all, split_on, split_on_char, string_of, views};

verus! {

/// One substitution rule.
pub struct Replacement {
    pub from: String,
    pub into: String,
}

/// A descriptor of substitution pairs was not well formed.
#[derive(Clone, Copy, Debug, PartialEq, Eq, Structural)]
pub enum DescriptorError {
    /// A space-separated pair holds no `-` between its two sides.
    MissingSeparator,
}

/// Every non-overlapping occurrence of `f` in `s`, leftmost first, replaced by
/// `t`; an empty `f` changes nothing.
pub open spec fn replace_all(s: Seq<char>, f: Seq<char>, t: Seq<char>) -> Seq<char>
    decreases s.len(),
{
    if f.len() == 0 || s.len() == 0 {
        s
    } else if occurs_at(s, f, 0) {
        t + replace_all(s.skip(f.len() as int), f, t)
    } else {
        seq![s[0]] + replace_all(s.drop_first(), f, t)
    }
}

/// The rules of a table applied to `s` one after another, in table order.
pub open spec fn apply_table(rules: Seq<Replacement>, s: Seq<char>) -> Seq<char>
    decreases rules.len(),
{
    if rules.len() == 0 {
        s
    } else {
        replace_all(apply_table(rules.drop_last(), s), rules.last().from@, rules.last().into@)
    }
}

/// A table seen as its `(from, into)` pairs.
pub open spec fn rules_view(rules: Seq<Replacement>) -> Seq<(Seq<char>, Seq<char>)> {
    rules.map_values(|r: Replacement| (r.from@, r.into@))
}

/// The pair that one `from-into` token describes: the text before the first
/// `-` and the text between it and the next one.
pub open spec fn pair_of(token: Seq<char>) -> Option<(Seq<char>, Seq<char>)> {
    let parts = split_on(token, '-');
    if parts.len() >= 2 {
        Some((parts[0], parts[1]))
    } else {
        None
    }
}

/// The pairs of all tokens, or `None` when one of them has no separator.
pub open spec fn pairs_of(tokens: Seq<Seq<char>>) -> Option<Seq<(Seq<char>, Seq<char>)>>
    decreases tokens.len(),
{
    if tokens.len() == 0 {
        Some(Seq::empty())
    } else {
        match (pairs_of(tokens.drop_last()), pair_of(tokens.last())) {
            (Some(ps), Some(p)) => Some(ps.push(p)),
            _ => None,
        }
    }
}

/// The pairs whose `from` has exactly `n` characters, in their order.
pub open spec fn with_from_len(p: Seq<(Seq<char>, Seq<char>)>, n: nat) -> Seq<(Seq<char>, Seq<char>)>
    decreases p.len(),
{
    if p.len() == 0 {
        Seq::empty()
    } else {
        let rest = with_from_len(p.drop_last(), n);
        if p.last().0.len() == n {
            rest.push(p.last())
        } else {
            rest
        }
    }
}

/// The length of the longest `from`.
pub open spec fn max_from_len(p: Seq<(Seq<char>, Seq<char>)>) -> nat
    decreases p.len(),
{
    if p.len() == 0 {
        0
    } else {
        let m = max_from_len(p.drop_last());
        if p.last().0.len() > m {
            p.last().0.len()
        } else {
            m
        }
    }
}

/// The groups of pairs with `from` lengths `top`, `top - 1`, ... (`k` groups).
pub open spec fn longest_first_upto(p: Seq<(Seq<char>, Seq<char>)>, top: nat, k: nat) -> Seq<
    (Seq<char>, Seq<char>),
>
    decreases k,
{
    if k == 0 || k > top + 1 {
        Seq::empty()
    } else {
        longest_first_upto(p, top, (k - 1) as nat) + with_from_len(p, (top + 1 - k) as nat)
    }
}

/// The pairs ordered by descending length of `from`; pairs of equal length
/// keep their order.
pub open spec fn longest_first(p: Seq<(Seq<char>, Seq<char>)>) -> Seq<(Seq<char>, Seq<char>)> {
    longest_first_upto(p, max_from_len(p), max_from_len(p) + 1)
}

/// The table that a descriptor describes: a single rule that changes nothing
/// for an empty descriptor, else the pairs of its space-separated tokens,
/// longest `from` first; `None` when a token lacks its `-`.
pub open spec fn table_of(s: Seq<char>) -> Option<Seq<(Seq<char>, Seq<char>)>> {
    if s.len() == 0 {
        Some(seq![(Seq::empty(), Seq::empty())])
    } else {
        match pairs_of(split_on(s, ' ')) {
            Some(ps) => Some(longest_first(ps)),
            None => None,
        }
    }
}

/// Scanning the first `n` characters of a descriptor: whether every finished
/// token held a `-`, and whether the token under way holds one.
pub open spec fn paired_at(s: Seq<char>, n: int) -> (bool, bool)
    decreases n,
{
    if n <= 0 {
        (true, false)
    } else {
        let (ok, dash) = paired_at(s, n - 1);
        let c = s[n - 1];
        if c == ' ' {
            (ok && dash, false)
        } else if c == '-' {
            (ok, true)
        } else {
            (ok, dash)
        }
    }
}

/// Every space-separated token of `s` holds a `-`.
pub open spec fn well_paired(s: Seq<char>) -> bool {
    paired_at(s, s.len() as int).0 && paired_at(s, s.len() as int).1
}

proof fn lemma_split_on_dash(p: Seq<char>)
    ensures
        split_on(p, '-').len() >= 2 <==> p.contains('-'),
    decreases p.len(),
{
    crate::text::lemma_split_on_len(p, '-');
    if p.len() > 0 {
        lemma_split_on_dash(p.drop_last());
        crate::text::lemma_split_on_len(p.drop_last(), '-');
        if p.drop_last().contains('-') {
            let i = choose|i: int| 0 <= i < p.drop_last().len() && p.drop_last()[i] == '-';
            assert(p[i] == '-');
        }
        if p.contains('-') && p.last() != '-' {
            let i = choose|i: int| 0 <= i < p.len() && p[i] == '-';
            assert(p.drop_last()[i] == '-');
        }
        if p.last() == '-' {
            assert(p[p.len() - 1] == '-');
        }
    }
}

proof fn lemma_paired_at(s: Seq<char>, n: int)
    requires
        0 <= n <= s.len(),
    ensures
        paired_at(s, n).0 == (pairs_of(split_on(s.take(n), ' ').drop_last()) is Some),
        paired_at(s, n).1 == split_on(s.take(n), ' ').last().contains('-'),
    decreases n,
{
    let t = s.take(n);
    crate::text::lemma_split_on_len(t, ' ');
    if n == 0 {
        assert(t =~= Seq::<char>::empty());
        assert(split_on(t, ' ').drop_last() =~= Seq::<Seq<char>>::empty());
        assert(!Seq::<char>::empty().contains('-'));
    } else {
        lemma_paired_at(s, n - 1);
        let t0 = s.take(n - 1);
        assert(t.drop_last() =~= t0);
        assert(t.last() == s[n - 1]);
        let p = split_on(t0, ' ');
        crate::text::lemma_split_on_len(t0, ' ');
        let c = s[n - 1];
        if c == ' ' {
            assert(split_on(t, ' ') == p.push(Seq::empty()));
            assert(split_on(t, ' ').drop_last() =~= p);
            assert(p.drop_last().push(p.last()) =~= p);
            lemma_split_on_dash(p.last());
            assert(pairs_of(p) == match (pairs_of(p.drop_last()), pair_of(p.last())) {
                (Some(ps), Some(q)) => Some(ps.push(q)),
                _ => None,
            });
            assert(!Seq::<char>::empty().contains('-'));
        } else {
            let q = p.update(p.len() - 1, p.last().push(c));
            assert(split_on(t, ' ') == q);
            assert(q.drop_last() =~= p.drop_last());
            let w = p.last().push(c);
            assert(q.last() == w);
            if p.last().contains('-') {
                let i = choose|i: int| 0 <= i < p.last().len() && p.last()[i] == '-';
                assert(w[i] == '-');
            }
            if c == '-' {
                assert(w[w.len() - 1] == '-');
            }
            if w.contains('-') && c != '-' {
                let i = choose|i: int| 0 <= i < w.len() && w[i] == '-';
                assert(p.last()[i] == '-');
            }
        }
    }
}

/// A descriptor in which every token holds a `-` describes a table.
pub proof fn lemma_well_paired_parses(s: Seq<char>)
    requires
        well_paired(s),
    ensures
        table_of(s) is Some,
{
    lemma_paired_at(s, s.len() as int);
    assert(s.take(s.len() as int) =~= s);
    let p = split_on(s, ' ');
    crate::text::lemma_split_on_len(s, ' ');
    lemma_split_on_dash(p.last());
    assert(p.drop_last().push(p.last()) =~= p);
}

/// The `from` sides of `p` never grow longer along the table.
pub open spec fn longest_first_sorted(p: Seq<(Seq<char>, Seq<char>)>) -> bool {
    forall|i: int, j: int| 0 <= i < j < p.len() ==> #[trigger] p[i].0.len() >= #[trigger] p[j].0.len()
}

proof fn lemma_with_from_len_exact(p: Seq<(Seq<char>, Seq<char>)>, n: nat)
    ensures
        forall|i: int| 0 <= i < with_from_len(p, n).len() ==> #[trigger] with_from_len(p, n)[i].0.len() == n,
    decreases p.len(),
{
    if p.len() > 0 {
        lemma_with_from_len_exact(p.drop_last(), n);
        let rest = with_from_len(p.drop_last(), n);
        let all = with_from_len(p, n);
        assert forall|i: int| 0 <= i < all.len() implies #[trigger] all[i].0.len() == n by {
            if i < rest.len() {
                assert(all[i] == rest[i]);
            }
        }
    }
}

proof fn lemma_upto_sorted(p: Seq<(Seq<char>, Seq<char>)>, top: nat, k: nat)
    requires
        k <= top + 1,
    ensures
        longest_first_sorted(longest_first_upto(p, top, k)),
        forall|i: int|
            0 <= i < longest_first_upto(p, top, k).len() ==> #[trigger] longest_first_upto(
                p,
                top,
                k,
            )[i].0.len() + k >= top + 1,
    decreases k,
{
    if k > 0 {
        let prev = longest_first_upto(p, top, (k - 1) as nat);
        let n = (top + 1 - k) as nat;
        let b = with_from_len(p, n);
        let all = longest_first_upto(p, top, k);
        lemma_upto_sorted(p, top, (k - 1) as nat);
        lemma_with_from_len_exact(p, n);
        assert(all == prev + b);
        assert forall|i: int| 0 <= i < all.len() implies #[trigger] all[i].0.len() + k >= top + 1 by {
            if i < prev.len() {
                assert(all[i] == prev[i]);
            } else {
                assert(all[i] == b[i - prev.len()]);
            }
        }
        assert forall|i: int, j: int| 0 <= i < j < all.len() implies #[trigger] all[i].0.len()
            >= #[trigger] all[j].0.len() by {
            if j < prev.len() {
                assert(all[i] == prev[i] && all[j] == prev[j]);
            } else if i < prev.len() {
                assert(all[i] == prev[i] && all[j] == b[j - prev.len()]);
            } else {
                assert(all[i] == b[i - prev.len()] && all[j] == b[j - prev.len()]);
            }
        }
    }
}

/// Ordering longest first yields a table whose `from` sides never grow.
pub proof fn lemma_longest_first_sorted(p: Seq<(Seq<char>, Seq<char>)>)
    ensures
        longest_first_sorted(longest_first(p)),
{
    lemma_upto_sorted(p, max_from_len(p), max_from_len(p) + 1);
}

/// Replaces every non-overlapping occurrence of `f` in `s` by `t`.
pub fn replace_chars(s: &Vec<char>, f: &Vec<char>, t: &Vec<char>) -> (r: Vec<char>)
    ensures
        r@ == replace_all(s@, f@, t@),
{
    if f.len() == 0 {
        return copy_chars(s);
    }
    let mut out: Vec<char> = Vec::new();
    let mut i: usize = 0;
    assert(s@.skip(0) =~= s@);
    while i < s.len()
        invariant
            f@.len() > 0,
            i <= s@.len(),
            out@ + replace_all(s@.skip(i as int), f@, t@) == replace_all(s@, f@, t@),
        decreases s@.len() - i,
    {
        let ghost rest = s@.skip(i as int);
        let ghost flen = f@.len() as int;
        if occurs_at_exec(s, f, i) {
            assert(rest.subrange(0, flen) =~= s@.subrange(i as int, i + flen));
            assert(rest.skip(flen) =~= s@.skip(i + flen));
            push_all(&mut out, t);
            i = i + f.len();
            assert(out@ + replace_all(s@.skip(i as int), f@, t@) =~= replace_all(s@, f@, t@));
        } else {
            proof {
                if occurs_at(rest, f@, 0) {
                    assert(rest.subrange(0, flen) =~= s@.subrange(i as int, i + flen));
                }
            }
            assert(rest.drop_first() =~= s@.skip(i + 1));
            out.push(s[i]);
            i = i + 1;
            assert(out@ + replace_all(s@.skip(i as int), f@, t@) =~= replace_all(s@, f@, t@));
        }
    }
    assert(s@.skip(i as int) =~= Seq::<char>::empty());
    assert(out@ + Seq::<char>::empty() =~= out@);
    out
}

proof fn lemma_pairs_of_prefix_none(t: Seq<Seq<char>>, k: int)
    requires
        0 <= k <= t.len(),
        pairs_of(t.take(k)) is None,
    ensures
        pairs_of(t) is None,
    decreases t.len(),
{
    if k == t.len() {
        assert(t.take(k) =~= t);
    } else {
        assert(t.drop_last().take(k) =~= t.take(k));
        lemma_pairs_of_prefix_none(t.drop_last(), k);
    }
}

/// The length in characters of `s`.
fn char_len(s: &String) -> (r: usize)
    ensures
        r == s@.len(),
{
    s.as_str().unicode_len()
}

/// Appends to `out` the rules of `p` whose `from` has `n` characters.
fn push_with_from_len(out: &mut Vec<Replacement>, p: &Vec<Replacement>, n: usize)
    ensures
        rules_view(final(out)@) == rules_view(old(out)@) + with_from_len(rules_view(p@), n as nat),
{
    let ghost start = rules_view(out@);
    let mut i: usize = 0;
    assert(rules_view(p@).take(0) =~= Seq::<(Seq<char>, Seq<char>)>::empty());
    assert(start + Seq::<(Seq<char>, Seq<char>)>::empty() =~= start);
    while i < p.len()
        invariant
            i <= p@.len(),
            rules_view(out@) == start + with_from_len(rules_view(p@).take(i as int), n as nat),
        decreases p@.len() - i,
    {
        let ghost pv = rules_view(p@);
        assert(pv.take(i + 1).drop_last() =~= pv.take(i as int));
        if char_len(&p[i].from) == n {
            let ghost before = rules_view(out@);
            out.push(p[i].duplicate());
            assert(rules_view(out@) =~= before.push(pv[i as int]));
        }
        i = i + 1;
        assert(rules_view(out@) =~= start + with_from_len(rules_view(p@).take(i as int), n as nat));
    }
    assert(rules_view(p@).take(i as int) =~= rules_view(p@));
}

/// The rules of `p` ordered by descending length of `from`, equal lengths in
/// their order.
fn longest_first_exec(p: &Vec<Replacement>) -> (r: Vec<Replacement>)
    ensures
        rules_view(r@) == longest_first(rules_view(p@)),
{
    let ghost pv = rules_view(p@);
    let mut m: usize = 0;
    let mut i: usize = 0;
    assert(pv.take(0) =~= Seq::<(Seq<char>, Seq<char>)>::empty());
    while i < p.len()
        invariant
            i <= p@.len(),
            pv == rules_view(p@),
            m == max_from_len(pv.take(i as int)),
        decreases p@.len() - i,
    {
        assert(pv.take(i + 1).drop_last() =~= pv.take(i as int));
        let l = char_len(&p[i].from);
        if l > m {
            m = l;
        }
        i = i + 1;
    }
    assert(pv.take(i as int) =~= pv);
    let mut out: Vec<Replacement> = Vec::new();
    let mut k: usize = 0;
    assert(rules_view(out@) =~= longest_first_upto(pv, m as nat, 0));
    while k < m
        invariant
            k <= m,
            pv == rules_view(p@),
            m == max_from_len(pv),
            rules_view(out@) == longest_first_upto(pv, m as nat, k as nat),
        decreases m - k,
    {
        push_with_from_len(&mut out, p, m - k);
        k = k + 1;
    }
    push_with_from_len(&mut out, p, 0);
    out
}

impl Replacement {
    /// The table that `value` describes: space-separated `from-into` pairs,
    /// longest `from` first. An empty descriptor gives a single rule that
    /// changes nothing.
    pub fn from_str(value: &str) -> (r: Result<Vec<Self>, DescriptorError>)
        ensures
            r is Ok <==> table_of(value@) is Some,
            match r {
                Ok(v) => Some(rules_view(v@)) == table_of(value@) && longest_first_sorted(
                    rules_view(v@),
                ),
                Err(e) => e == DescriptorError::MissingSeparator,
            },
    {
        let chars = chars_of(value);
        if chars.len() == 0 {
            let v = vec![Replacement { from: String::new(), into: String::new() }];
            assert(rules_view(v@) =~= seq![(Seq::<char>::empty(), Seq::<char>::empty())]);
            assert(longest_first_sorted(rules_view(v@)));
            return Ok(v);
        }
        let tokens = split_on_char(&chars, ' ');
        let ghost tv = views(tokens@);
        let mut pairs: Vec<Replacement> = Vec::new();
        let mut i: usize = 0;
        assert(tv.take(0) =~= Seq::<Seq<char>>::empty());
        assert(rules_view(pairs@) =~= Seq::<(Seq<char>, Seq<char>)>::empty());
        while i < tokens.len()
            invariant
                i <= tokens@.len(),
                tv == views(tokens@),
                tv == split_on(value@, ' '),
                value@.len() != 0,
                pairs_of(tv.take(i as int)) == Some(rules_view(pairs@)),
            decreases tokens@.len() - i,
        {
            assert(tv.take(i + 1).drop_last() =~= tv.take(i as int));
            assert(tv.take(i + 1).last() == tokens@[i as int]@);
            let parts = split_on_char(&tokens[i], '-');
            if parts.len() < 2 {
                proof {
                    assert(views(parts@).len() == parts@.len());
                    assert(pair_of(tv.take(i + 1).last()) is None);
                    assert(pairs_of(tv.take(i + 1)) is None);
                    lemma_pairs_of_prefix_none(tv, i + 1);
                    assert(tv == split_on(value@, ' '));
                    assert(value@.len() != 0);
                    assert(table_of(value@) is None);
                }
                return Err(DescriptorError::MissingSeparator);
            }
            let ghost before = rules_view(pairs@);
            pairs.push(Replacement { from: string_of(&parts[0]), into: string_of(&parts[1]) });
            assert(rules_view(pairs@) =~= before.push((parts@[0]@, parts@[1]@)));
            i = i + 1;
        }
        assert(tv.take(i as int) =~= tv);
        proof {
            lemma_longest_first_sorted(rules_view(pairs@));
        }
        Ok(longest_first_exec(&pairs))
    }

    fn duplicate(&self) -> (r: Replacement)
        ensures
            r.from@ == self.from@,
            r.into@ == self.into@,
    {
        Replacement { from: self.from.clone(), into: self.into.clone() }
    }

    /// Applies the rules of `vec` to `word`, one after another.
    pub fn replace(vec: &Vec<Replacement>, word: &Vec<char>) -> (r: Vec<char>)
        ensures
            r@ == apply_table(vec@, word@),
    {
        let mut out = copy_chars(word);
        let mut i: usize = 0;
        assert(vec@.take(0) =~= Seq::<Replacement>::empty());
        while i < vec.len()
            invariant
                i <= vec@.len(),
                out@ == apply_table(vec@.take(i as int), word@),
            decreases vec@.len() - i,
        {
            let f = chars_of(vec[i].from.as_str());
            let t = chars_of(vec[i].into.as_str());
            out = replace_chars(&out, &f, &t);
            assert(vec@.take(i + 1).drop_last() =~= vec@.take(i as int));
            i = i + 1;
        }
        assert(vec@.take(i as int) =~= vec@);
        out
    }
}

} // verus!
