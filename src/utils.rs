//! Word lists: splitting on white space, joining prefix roots, and slicing
//! by characters.
use vstd::prelude::*;
use vstd::string::*;
use crate::text::{chars_of, is_space, is_space_spec, string_of, views};

verus! {

/// The character sequences held by a list of strings.
pub open spec fn strings_view(v: Seq<String>) -> Seq<Seq<char>> {
    v.map_values(|x: String| x@)
}

/// The maximal runs of non-white-space characters of `s`, in order.
pub open spec fn words(s: Seq<char>) -> Seq<Seq<char>>
    decreases s.len(),
{
    if s.len() == 0 {
        Seq::empty()
    } else {
        let w = words(s.drop_last());
        let c = s.last();
        if is_space_spec(c) {
            w
        } else if s.len() >= 2 && !is_space_spec(s[s.len() - 2]) {
            w.update(w.len() - 1, w.last().push(c))
        } else {
            w.push(seq![c])
        }
    }
}

/// No word is empty, and a last word exists when `s` ends in a word.
pub proof fn lemma_words_nonempty(s: Seq<char>)
    ensures
        forall|k: int| 0 <= k < words(s).len() ==> #[trigger] words(s)[k].len() > 0,
        s.len() > 0 && !is_space_spec(s.last()) ==> words(s).len() > 0,
    decreases s.len(),
{
    if s.len() > 0 {
        lemma_words_nonempty(s.drop_last());
        let w = words(s.drop_last());
        if s.len() >= 2 && !is_space_spec(s[s.len() - 2]) {
            assert(s.drop_last().last() == s[s.len() - 2]);
        }
        let r = words(s);
        assert forall|k: int| 0 <= k < r.len() implies #[trigger] r[k].len() > 0 by {
            if k < w.len() {
                assert(w[k].len() > 0);
            }
        }
    }
}

/// The words of `s`, split at white space.
pub fn words_of(s: &Vec<char>) -> (r: Vec<Vec<char>>)
    ensures
        views(r@) == words(s@),
{
    let mut out: Vec<Vec<char>> = Vec::new();
    let mut cur: Vec<char> = Vec::new();
    let mut in_word = false;
    let mut i: usize = 0;
    assert(s@.take(0) =~= Seq::<char>::empty());
    assert(views(out@) =~= Seq::<Seq<char>>::empty());
    while i < s.len()
        invariant
            i <= s@.len(),
            in_word == (i > 0 && !is_space_spec(s@[i - 1])),
            in_word ==> views(out@).push(cur@) == words(s@.take(i as int)),
            !in_word ==> views(out@) == words(s@.take(i as int)) && cur@.len() == 0,
        decreases s@.len() - i,
    {
        let c = s[i];
        let ghost t = s@.take(i + 1);
        assert(t.drop_last() =~= s@.take(i as int));
        assert(t.last() == c);
        if is_space(c) {
            if in_word {
                let ghost before = views(out@).push(cur@);
                out.push(cur);
                cur = Vec::new();
                assert(views(out@) =~= before);
            }
            in_word = false;
        } else {
            if in_word {
                assert(t[t.len() - 2] == s@[i - 1]);
                let ghost before = views(out@).push(cur@);
                cur.push(c);
                assert(views(out@).push(cur@) =~= before.update(
                    before.len() - 1,
                    before.last().push(c),
                ));
            } else {
                proof {
                    if i > 0 {
                        assert(t[t.len() - 2] == s@[i - 1]);
                    }
                }
                cur.push(c);
                assert(cur@ =~= seq![c]);
            }
            in_word = true;
        }
        i = i + 1;
    }
    assert(s@.take(i as int) =~= s@);
    if in_word {
        let ghost before = views(out@).push(cur@);
        out.push(cur);
        assert(views(out@) =~= before);
    }
    out
}

/// The white-space separated words of `string`.
pub fn split(string: &str) -> (r: Vec<String>)
    ensures
        strings_view(r@) == words(string@),
{
    let chars = chars_of(string);
    let ws = words_of(&chars);
    let mut out: Vec<String> = Vec::new();
    let mut i: usize = 0;
    while i < ws.len()
        invariant
            i <= ws@.len(),
            strings_view(out@) == views(ws@).take(i as int),
        decreases ws@.len() - i,
    {
        let ghost before = strings_view(out@);
        let w = string_of(&ws[i]);
        out.push(w);
        assert(strings_view(out@) =~= before.push(w@));
        i = i + 1;
        assert(strings_view(out@) =~= views(ws@).take(i as int));
    }
    assert(views(ws@).take(i as int) =~= views(ws@));
    out
}

/// Each word of `a` followed by each word of `b`, `a` in the outer order.
pub open spec fn joined_pairs(a: Seq<Seq<char>>, b: Seq<Seq<char>>) -> Seq<Seq<char>>
    decreases a.len(),
{
    if a.len() == 0 {
        Seq::empty()
    } else {
        joined_pairs(a.drop_last(), b) + b.map_values(|y: Seq<char>| a.last() + y)
    }
}

/// The words of `b`, then every concatenation of a word of `a` with a word of `b`.
pub open spec fn joined(a: Seq<Seq<char>>, b: Seq<Seq<char>>) -> Seq<Seq<char>> {
    b + joined_pairs(a, b)
}

/// The words of `b` followed by every word of `a` joined with every word of `b`.
pub fn add(a: Vec<String>, b: Vec<String>) -> (r: Vec<String>)
    ensures
        strings_view(r@) == joined(strings_view(a@), strings_view(b@)),
{
    let ghost av = strings_view(a@);
    let ghost bv = strings_view(b@);
    let mut out: Vec<String> = Vec::new();
    let mut j: usize = 0;
    while j < b.len()
        invariant
            j <= b@.len(),
            bv == strings_view(b@),
            strings_view(out@) == bv.take(j as int),
        decreases b@.len() - j,
    {
        let ghost before = strings_view(out@);
        let w = b[j].clone();
        out.push(w);
        assert(strings_view(out@) =~= before.push(w@));
        j = j + 1;
        assert(strings_view(out@) =~= bv.take(j as int));
    }
    assert(bv.take(j as int) =~= bv);
    let mut i: usize = 0;
    assert(av.take(0) =~= Seq::<Seq<char>>::empty());
    assert(strings_view(out@) =~= bv + joined_pairs(av.take(0), bv));
    while i < a.len()
        invariant
            i <= a@.len(),
            av == strings_view(a@),
            bv == strings_view(b@),
            strings_view(out@) == bv + joined_pairs(av.take(i as int), bv),
        decreases a@.len() - i,
    {
        let ghost base = strings_view(out@);
        let mut j: usize = 0;
        assert(base + bv.take(0).map_values(|y: Seq<char>| av[i as int] + y) =~= base);
        while j < b.len()
            invariant
                i < a@.len(),
                j <= b@.len(),
                av == strings_view(a@),
                bv == strings_view(b@),
                strings_view(out@) == base + bv.take(j as int).map_values(
                    |y: Seq<char>| av[i as int] + y,
                ),
            decreases b@.len() - j,
        {
            let first = a[i].clone();
            let ghost before = strings_view(out@);
            let w = first.concat(b[j].as_str());
            out.push(w);
            assert(strings_view(out@) =~= before.push(w@));
            assert(w@ == av[i as int] + bv[j as int]);
            j = j + 1;
            assert(strings_view(out@) =~= base + bv.take(j as int).map_values(
                |y: Seq<char>| av[i as int] + y,
            ));
        }
        assert(bv.take(j as int) =~= bv);
        assert(av.take(i + 1).drop_last() =~= av.take(i as int));
        i = i + 1;
        assert(strings_view(out@) =~= bv + joined_pairs(av.take(i as int), bv));
    }
    assert(av.take(i as int) =~= av);
    out
}

/// The characters of `s` from position `start` up to `end`; an empty slice
/// when `end` does not exceed `start`; `None` when a bound lies past the end.
pub fn utf8_slice<'a>(s: &'a str, start: usize, end: usize) -> (r: Option<&'a str>)
    ensures
        r is Some <==> start <= s@.len() && (end <= start || end <= s@.len()),
        match r {
            Some(x) => if end <= start {
                x@ == Seq::<char>::empty()
            } else {
                x@ == s@.subrange(start as int, end as int)
            },
            None => true,
        },
{
    let n = s.unicode_len();
    if start > n {
        return None;
    }
    if end <= start {
        let x = s.substring_char(start, start);
        assert(x@ =~= Seq::<char>::empty());
        return Some(x);
    }
    if end > n {
        return None;
    }
    Some(s.substring_char(start, end))
}

} // verus!
