//! Language profiles, the candidate generator, the matcher and the scanner.
use vstd::prelude::*;
use vstd::string::*;
use crate::mode::{starts_with, occurs_at_exec, Mode};
use crate::replacement::{lemma_well_paired_parses, paired_at, well_paired, apply_table, rules_view, table_of, DescriptorError, Replacement};
use crate::text::{
    chars_of, is_space, is_space_spec, lower_of, lowercase, string_of, views,
};
use crate::utils::{joined_pairs, split, strings_view, joined, words, words_of, lemma_words_nonempty};

verus! {

/// Whether character `i` of `s` survives repeat collapsing: it is dropped when
/// it equals the character before it and that one survived, so a dropped
/// character never causes the next one to be dropped.
pub open spec fn kept(s: Seq<char>, i: int) -> bool
    decreases i,
{
    if i <= 0 {
        true
    } else {
        !(s[i - 1] == s[i] && kept(s, i - 1))
    }
}

/// The surviving characters among the first `n` of `s`.
pub open spec fn collapse_upto(s: Seq<char>, n: int) -> Seq<char>
    decreases n,
{
    if n <= 0 {
        Seq::empty()
    } else if kept(s, n - 1) {
        collapse_upto(s, n - 1).push(s[n - 1])
    } else {
        collapse_upto(s, n - 1)
    }
}

/// `s` with doubled characters collapsed.
pub open spec fn collapse(s: Seq<char>) -> Seq<char> {
    collapse_upto(s, s.len() as int)
}

/// The characters of `s` that `alpha` holds, in order.
pub open spec fn keep_in(s: Seq<char>, alpha: Seq<char>) -> Seq<char>
    decreases s.len(),
{
    if s.len() == 0 {
        Seq::empty()
    } else if alpha.contains(s.last()) {
        keep_in(s.drop_last(), alpha).push(s.last())
    } else {
        keep_in(s.drop_last(), alpha)
    }
}

/// The characters of `s` that are not white space, in order.
pub open spec fn no_space(s: Seq<char>) -> Seq<char>
    decreases s.len(),
{
    if s.len() == 0 {
        Seq::empty()
    } else if is_space_spec(s.last()) {
        no_space(s.drop_last())
    } else {
        no_space(s.drop_last()).push(s.last())
    }
}

/// The number of characters the whole-text pass looks at.
pub const HEAD_LEN: usize = 10;

/// What the whole-text pass looks at: the text without white space, cut to
/// its first `HEAD_LEN` characters.
pub open spec fn head(text: Seq<char>) -> Seq<char> {
    let t = no_space(text);
    if t.len() > HEAD_LEN {
        t.take(HEAD_LEN as int)
    } else {
        t
    }
}

/// Look-alike characters of the Russian profile.
pub const RU_BYPASSES: &'static str = "ia-я yo-е ё-е 6-б 3-з 0-о c-с p-р /\\-л";

/// Transliteration from Latin to Cyrillic letters.
pub const RU_REPLACEMENTS: &'static str = "a-а b-б v-в g-г d-д e-е zh-ж z-з i-и k-к l-л m-м n-н o-о p-п r-р s-с t-т u-у f-ф h-х c-ц ch-ч sh-ш yu-ю ya-я";

/// Prefixes of Russian words, joined with the roots below.
pub const RU_PREFIXES_FIRST: &'static str = "у ни а о вы до попере нев невъ за из изъ ис на недо надъ не о об объ от отъ по долба долбо под подъ пере пре пред предъ при про раз рас разъ съ со су через черес чрез черезъ вз взъ довы без бес долбо";

/// Obscene roots of the Russian profile.
pub const RU_PREFIXES_SECOND: &'static str = "хуе шлюх хуи хуй хую хуя пизд пезд блят бляд сук пидар пидор еб бзд пидр педр хул залуп спизд спизж пизж";

/// A hit: the flagged word and its position among the words of the text
/// (0 for a hit of the whole-text pass).
pub struct Analyze {
    pub word: String,
    pub index: usize,
}

/// One language: substitution tables, alphabet, word lists and mode.
pub struct Antiswear {
    pub bypasses: Vec<Replacement>,
    pub prefixes: Vec<String>,
    pub short: Vec<String>,
    pub alphabet: String,
    pub replacements: Vec<Replacement>,
    pub exceptions: Vec<String>,
    pub mode: Mode,
}

/// The descriptor of a profile. Lists are separated by white space; tables
/// are space-separated `from-into` pairs.
pub struct Builder<'a> {
    pub bypasses: &'a str,
    pub prefixes_first: &'a str,
    pub prefixes_second: &'a str,
    pub short: &'a str,
    pub alphabet: &'a str,
    pub replacements: &'a str,
    pub exceptions: &'a str,
    pub mode: Mode,
}

/// Several profiles, tried in order.
pub struct AntiswearGroup {
    pub elems: Vec<Antiswear>,
}

/// The `from` sides of a table, one after another.
pub open spec fn froms(p: Seq<(Seq<char>, Seq<char>)>) -> Seq<char>
    decreases p.len(),
{
    if p.len() == 0 {
        Seq::empty()
    } else {
        froms(p.drop_last()) + p.last().0
    }
}

impl Antiswear {
    /// No prefix and no short word is empty.
    pub open spec fn wf(&self) -> bool {
        &&& forall|k: int| 0 <= k < self.prefixes@.len() ==> #[trigger] self.prefixes@[k]@.len() > 0
        &&& forall|k: int| 0 <= k < self.short@.len() ==> #[trigger] self.short@[k]@.len() > 0
    }

    /// The mode for the short-word list: `Startswith` becomes `Equally`.
    pub open spec fn short_mode(&self) -> Mode {
        if self.mode == Mode::Startswith {
            Mode::Equally
        } else {
            self.mode
        }
    }

    pub open spec fn excepted(&self, w: Seq<char>) -> bool {
        exists|k: int|
            0 <= k < self.exceptions@.len() && #[trigger] self.mode.compares(
                w,
                self.exceptions@[k]@,
            )
    }

    pub open spec fn has_prefix(&self, w: Seq<char>) -> bool {
        exists|k: int| 0 <= k < self.prefixes@.len() && #[trigger] starts_with(w, self.prefixes@[k]@)
    }

    pub open spec fn has_short(&self, w: Seq<char>) -> bool {
        exists|k: int|
            0 <= k < self.short@.len() && #[trigger] self.short_mode().compares(w, self.short@[k]@)
    }

    /// Whether a normalized candidate is flagged: after the alphabet filter it
    /// matches no exception, and it starts with a prefix or matches a short word.
    pub open spec fn is_swear_spec(&self, cand: Seq<char>) -> bool {
        let w = keep_in(cand, self.alphabet@);
        !self.excepted(w) && (self.has_prefix(w) || self.has_short(w))
    }

    /// The four normalizations of a lowercased word.
    pub open spec fn candidates(&self, lw: Seq<char>) -> Seq<Seq<char>> {
        let r = apply_table(self.replacements@, lw);
        let b = apply_table(self.bypasses@, collapse(lw));
        seq![r, b, apply_table(self.bypasses@, collapse(r)), apply_table(self.replacements@, b)]
    }

    pub open spec fn flags_lowered(&self, lw: Seq<char>) -> bool {
        let c = self.candidates(lw);
        self.is_swear_spec(c[0]) || self.is_swear_spec(c[1]) || self.is_swear_spec(c[2])
            || self.is_swear_spec(c[3])
    }

    pub open spec fn flags(&self, w: Seq<char>) -> bool {
        self.flags_lowered(lower_of(w))
    }

    /// The first flagged word of `toks` from position `i` on, with its position.
    pub open spec fn scan(&self, toks: Seq<Seq<char>>, i: int) -> Option<(Seq<char>, int)>
        decreases toks.len() - i,
    {
        if i < 0 || i >= toks.len() {
            None
        } else if self.flags(toks[i]) {
            Some((toks[i], i))
        } else {
            self.scan(toks, i + 1)
        }
    }

    /// The result of checking `text`: the whole-text pass first, then the words.
    pub open spec fn check_spec(&self, text: Seq<char>) -> Option<(Seq<char>, int)> {
        let h = head(text);
        if self.flags(h) {
            Some((h, 0))
        } else {
            self.scan(words(text), 0)
        }
    }
}

/// The first profile of `ps` from position `i` on that has a hit on `text`,
/// and that hit.
pub open spec fn first_hit(ps: Seq<Antiswear>, text: Seq<char>, i: int) -> Option<(Seq<char>, int)>
    decreases ps.len() - i,
{
    if i < 0 || i >= ps.len() {
        None
    } else if ps[i].check_spec(text) is Some {
        ps[i].check_spec(text)
    } else {
        first_hit(ps, text, i + 1)
    }
}

impl AntiswearGroup {
    pub open spec fn check_spec(&self, text: Seq<char>) -> Option<(Seq<char>, int)> {
        first_hit(self.elems@, text, 0)
    }
}

/// Applying a table to the empty string gives the empty string.
pub proof fn lemma_apply_table_empty(rules: Seq<Replacement>)
    ensures
        apply_table(rules, Seq::empty()) == Seq::<char>::empty(),
    decreases rules.len(),
{
    if rules.len() > 0 {
        lemma_apply_table_empty(rules.drop_last());
    }
}

/// A profile whose lists hold no empty word flags no empty candidate.
pub proof fn lemma_empty_not_swear(p: &Antiswear)
    requires
        p.wf(),
    ensures
        !p.is_swear_spec(Seq::empty()),
{
    let w = keep_in(Seq::<char>::empty(), p.alphabet@);
    assert(w.len() == 0);
    assert forall|k: int| 0 <= k < p.prefixes@.len() implies !#[trigger] starts_with(
        w,
        p.prefixes@[k]@,
    ) by {
        assert(p.prefixes@[k]@.len() > 0);
    }
    assert forall|k: int| 0 <= k < p.short@.len() implies !#[trigger] p.short_mode().compares(
        w,
        p.short@[k]@,
    ) by {
        assert(p.short@[k]@.len() > 0);
    }
}

/// The text without white space.
fn strip_spaces(s: &Vec<char>) -> (r: Vec<char>)
    ensures
        r@ == no_space(s@),
{
    let mut out: Vec<char> = Vec::new();
    let mut i: usize = 0;
    assert(s@.take(0) =~= Seq::<char>::empty());
    while i < s.len()
        invariant
            i <= s@.len(),
            out@ == no_space(s@.take(i as int)),
        decreases s@.len() - i,
    {
        assert(s@.take(i + 1).drop_last() =~= s@.take(i as int));
        if !is_space(s[i]) {
            out.push(s[i]);
        }
        i = i + 1;
    }
    assert(s@.take(i as int) =~= s@);
    out
}

/// What the whole-text pass of `s` looks at.
fn head_of(s: &Vec<char>) -> (r: Vec<char>)
    ensures
        r@ == head(s@),
{
    let t = strip_spaces(s);
    if t.len() <= HEAD_LEN {
        return t;
    }
    let mut out: Vec<char> = Vec::new();
    let mut i: usize = 0;
    while i < HEAD_LEN
        invariant
            i <= HEAD_LEN < t@.len(),
            out@ == t@.take(i as int),
        decreases HEAD_LEN - i,
    {
        out.push(t[i]);
        i = i + 1;
        assert(out@ =~= t@.take(i as int));
    }
    out
}

/// Whether `c` occurs in `v`.
fn holds_char(v: &Vec<char>, c: char) -> (r: bool)
    ensures
        r == v@.contains(c),
{
    let mut i: usize = 0;
    while i < v.len()
        invariant
            i <= v@.len(),
            forall|k: int| 0 <= k < i ==> v@[k] != c,
        decreases v@.len() - i,
    {
        if v[i] == c {
            assert(v@[i as int] == c);
            return true;
        }
        i = i + 1;
    }
    false
}

/// The characters of `s` that `alpha` holds.
fn keep_in_exec(s: &Vec<char>, alpha: &Vec<char>) -> (r: Vec<char>)
    ensures
        r@ == keep_in(s@, alpha@),
{
    let mut out: Vec<char> = Vec::new();
    let mut i: usize = 0;
    assert(s@.take(0) =~= Seq::<char>::empty());
    while i < s.len()
        invariant
            i <= s@.len(),
            out@ == keep_in(s@.take(i as int), alpha@),
        decreases s@.len() - i,
    {
        assert(s@.take(i + 1).drop_last() =~= s@.take(i as int));
        if holds_char(alpha, s[i]) {
            out.push(s[i]);
        }
        i = i + 1;
    }
    assert(s@.take(i as int) =~= s@);
    out
}

impl Antiswear {
    /// A profile with empty tables and lists, comparing with `Startswith`.
    pub fn new() -> (r: Self)
        ensures
            r.bypasses@.len() == 0,
            r.prefixes@.len() == 0,
            r.short@.len() == 0,
            r.alphabet@.len() == 0,
            r.replacements@.len() == 0,
            r.exceptions@.len() == 0,
            r.mode == Mode::Startswith,
            r.wf(),
    {
        Self {
            bypasses: Vec::new(),
            prefixes: Vec::new(),
            short: Vec::new(),
            alphabet: String::new(),
            replacements: Vec::new(),
            exceptions: Vec::new(),
            mode: Mode::Startswith,
        }
    }

    fn replace_bypasses(&self, word: &Vec<char>) -> (r: Vec<char>)
        ensures
            r@ == apply_table(self.bypasses@, collapse(word@)),
    {
        Replacement::replace(&self.bypasses, &self.replace_repeats(word))
    }

    /// `word` with doubled characters collapsed.
    pub fn replace_repeats(&self, word: &Vec<char>) -> (r: Vec<char>)
        ensures
            r@ == collapse(word@),
    {
        let mut out: Vec<char> = Vec::new();
        let mut prev_kept = true;
        let mut i: usize = 0;
        while i < word.len()
            invariant
                i <= word@.len(),
                out@ == collapse_upto(word@, i as int),
                i > 0 ==> prev_kept == kept(word@, i - 1),
            decreases word@.len() - i,
        {
            let keep = i == 0 || !(word[i - 1] == word[i] && prev_kept);
            assert(keep == kept(word@, i as int));
            if keep {
                out.push(word[i]);
            }
            prev_kept = keep;
            i = i + 1;
        }
        out
    }

    fn replace_replacements(&self, word: &Vec<char>) -> (r: Vec<char>)
        ensures
            r@ == apply_table(self.replacements@, word@),
    {
        Replacement::replace(&self.replacements, word)
    }

    /// Whether a normalized candidate is flagged.
    fn is_swear(&self, word: &Vec<char>) -> (r: bool)
        ensures
            r == self.is_swear_spec(word@),
    {
        let alpha = chars_of(self.alphabet.as_str());
        let w = keep_in_exec(word, &alpha);
        let mut i: usize = 0;
        while i < self.exceptions.len()
            invariant
                i <= self.exceptions@.len(),
                w@ == keep_in(word@, self.alphabet@),
                forall|k: int| 0 <= k < i ==> !#[trigger] self.mode.compares(w@, self.exceptions@[k]@),
            decreases self.exceptions@.len() - i,
        {
            let e = chars_of(self.exceptions[i].as_str());
            if self.mode.is_contains(&w, &e) {
                return false;
            }
            i = i + 1;
        }
        let mut i: usize = 0;
        while i < self.prefixes.len()
            invariant
                i <= self.prefixes@.len(),
                w@ == keep_in(word@, self.alphabet@),
                !self.excepted(w@),
                forall|k: int| 0 <= k < i ==> !#[trigger] starts_with(w@, self.prefixes@[k]@),
            decreases self.prefixes@.len() - i,
        {
            let p = chars_of(self.prefixes[i].as_str());
            if occurs_at_exec(&w, &p, 0) {
                assert(starts_with(w@, self.prefixes@[i as int]@));
                return true;
            }
            i = i + 1;
        }
        let short_mode = if self.mode == Mode::Startswith {
            Mode::Equally
        } else {
            self.mode
        };
        let mut i: usize = 0;
        while i < self.short.len()
            invariant
                i <= self.short@.len(),
                short_mode == self.short_mode(),
                w@ == keep_in(word@, self.alphabet@),
                !self.excepted(w@),
                !self.has_prefix(w@),
                forall|k: int| 0 <= k < i ==> !#[trigger] self.short_mode().compares(w@, self.short@[k]@),
            decreases self.short@.len() - i,
        {
            let c = chars_of(self.short[i].as_str());
            if short_mode.is_contains(&w, &c) {
                assert(self.short_mode().compares(w@, self.short@[i as int]@));
                return true;
            }
            i = i + 1;
        }
        false
    }

    /// The four normalizations of a lowercased word: replacements only,
    /// bypasses only, replacements then bypasses, bypasses then replacements.
    /// Bypasses are always applied after collapsing doubled characters.
    pub fn candidates_of(&self, lowered: &Vec<char>) -> (r: Vec<Vec<char>>)
        ensures
            views(r@) == self.candidates(lowered@),
    {
        let replaced = self.replace_replacements(lowered);
        let bypassed = self.replace_bypasses(lowered);
        let both = self.replace_bypasses(&replaced);
        let both_rev = self.replace_replacements(&bypassed);
        let r = vec![replaced, bypassed, both, both_rev];
        assert(views(r@) =~= self.candidates(lowered@));
        r
    }

    /// Whether one of the candidates of an already lowercased word is flagged.
    pub fn matches_lowercase(&self, lowered: &str) -> (r: bool)
        ensures
            r == self.flags_lowered(lowered@),
    {
        let lw = chars_of(lowered);
        let cands = self.candidates_of(&lw);
        assert(views(cands@).len() == cands@.len());
        assert(cands@[0]@ == views(cands@)[0]);
        assert(cands@[1]@ == views(cands@)[1]);
        assert(cands@[2]@ == views(cands@)[2]);
        assert(cands@[3]@ == views(cands@)[3]);
        self.is_swear(&cands[0]) || self.is_swear(&cands[1]) || self.is_swear(&cands[2])
            || self.is_swear(&cands[3])
    }

    /// Whether `word`, lowercased and normalized, is flagged.
    fn flagged(&self, word: &Vec<char>) -> (r: bool)
        ensures
            r == self.flags(word@),
            word@.len() == 0 && self.wf() ==> !r,
    {
        let s = string_of(word);
        let lowered = lowercase(s.as_str());
        let r = self.matches_lowercase(lowered.as_str());
        proof {
            if word@.len() == 0 && self.wf() {
                let lw = lower_of(word@);
                assert(lw =~= Seq::<char>::empty());
                assert(collapse(lw) =~= Seq::<char>::empty());
                lemma_apply_table_empty(self.replacements@);
                lemma_apply_table_empty(self.bypasses@);
                lemma_empty_not_swear(self);
            }
        }
        r
    }

    /// The first hit in `text`: the whole-text pass on the text without white
    /// space, cut to its first ten characters (index 0), then each word in turn
    /// (its index among the words).
    pub fn check(&self, text: &str) -> (r: Option<Analyze>)
        ensures
            match r {
                Some(a) => self.check_spec(text@) == Some((a.word@, a.index as int)),
                None => self.check_spec(text@) is None,
            },
            text@.len() == 0 && self.wf() ==> r is None,
    {
        let chars = chars_of(text);
        let h = head_of(&chars);
        proof {
            if text@.len() == 0 {
                assert(no_space(text@) =~= Seq::<char>::empty());
            }
        }
        if self.flagged(&h) {
            return Some(Analyze { word: string_of(&h), index: 0 });
        }
        let toks = words_of(&chars);
        let ghost tv = views(toks@);
        let mut i: usize = 0;
        while i < toks.len()
            invariant
                i <= toks@.len(),
                tv == views(toks@),
                tv == words(text@),
                self.scan(tv, 0) == self.scan(tv, i as int),
                !self.flags(head(text@)),
            decreases toks@.len() - i,
        {
            assert(tv[i as int] == toks@[i as int]@);
            if self.flagged(&toks[i]) {
                return Some(Analyze { word: string_of(&toks[i]), index: i });
            }
            i = i + 1;
        }
        None
    }
}

/// Concatenations with non-empty words are non-empty.
pub proof fn lemma_joined_nonempty(a: Seq<Seq<char>>, b: Seq<Seq<char>>)
    requires
        forall|k: int| 0 <= k < b.len() ==> #[trigger] b[k].len() > 0,
    ensures
        forall|k: int| 0 <= k < joined(a, b).len() ==> #[trigger] joined(a, b)[k].len() > 0,
{
    lemma_joined_pairs_nonempty(a, b);
    let j = joined(a, b);
    assert forall|k: int| 0 <= k < j.len() implies #[trigger] j[k].len() > 0 by {
        if k >= b.len() {
            assert(j[k] == joined_pairs(a, b)[k - b.len()]);
        }
    }
}

proof fn lemma_joined_pairs_nonempty(a: Seq<Seq<char>>, b: Seq<Seq<char>>)
    requires
        forall|k: int| 0 <= k < b.len() ==> #[trigger] b[k].len() > 0,
    ensures
        forall|k: int| 0 <= k < joined_pairs(a, b).len() ==> #[trigger] joined_pairs(a, b)[k].len() > 0,
    decreases a.len(),
{
    if a.len() > 0 {
        lemma_joined_pairs_nonempty(a.drop_last(), b);
        let prev = joined_pairs(a.drop_last(), b);
        let j = joined_pairs(a, b);
        assert forall|k: int| 0 <= k < j.len() implies #[trigger] j[k].len() > 0 by {
            if k >= prev.len() {
                assert(b[k - prev.len()].len() > 0);
            } else {
                assert(j[k] == prev[k]);
            }
        }
    }
}

impl Antiswear {
    /// This profile is the one that descriptor `b` describes.
    pub open spec fn built_from(&self, b: &Builder) -> bool {
        &&& Some(rules_view(self.bypasses@)) == table_of(b.bypasses@)
        &&& Some(rules_view(self.replacements@)) == table_of(b.replacements@)
        &&& strings_view(self.prefixes@) == joined(words(b.prefixes_first@), words(b.prefixes_second@))
        &&& strings_view(self.short@) == words(b.short@)
        &&& strings_view(self.exceptions@) == words(b.exceptions@)
        &&& self.alphabet@ == b.alphabet@ + froms(rules_view(self.bypasses@)) + seq![' ']
        &&& self.mode == b.mode
        &&& self.wf()
    }

    /// The English profile: the profile that its descriptor describes.
    pub fn en() -> (r: Self)
        ensures
            r.built_from(
                &(Builder {
                    bypasses: "1-i 4-f",
                    prefixes_first: "",
                    prefixes_second: "",
                    short: "fuck bitch",
                    alphabet: "abcdefghijklmnopqrstuvwxyz ",
                    replacements: "",
                    exceptions: "bitchin bitchy",
                    mode: Mode::Contains,
                }),
            ),
    {
        let b = Builder {
            bypasses: "1-i 4-f",
            prefixes_first: "",
            prefixes_second: "",
            short: "fuck bitch",
            alphabet: "abcdefghijklmnopqrstuvwxyz ",
            replacements: "",
            exceptions: "bitchin bitchy",
            mode: Mode::Contains,
        };
        proof {
            reveal_strlit("");
            reveal_strlit("1-i 4-f");
            reveal_with_fuel(paired_at, 8);
            assert(well_paired("1-i 4-f"@));
            lemma_well_paired_parses("1-i 4-f"@);
        }
        match b.build() {
            Ok(a) => a,
            Err(_) => {
                proof {
                    assert(false);
                }
                Antiswear::new()
            },
        }
    }

    /// The Russian profile: the profile that its descriptor describes.
    pub fn ru() -> (r: Self)
        ensures
            r.built_from(
                &(Builder {
                    bypasses: RU_BYPASSES,
                    prefixes_first: RU_PREFIXES_FIRST,
                    prefixes_second: RU_PREFIXES_SECOND,
                    short: "бля бл нах манда сучка мозгоеб мозгоебина",
                    alphabet: "абвгдеёжзийклмнопрстуфхцчшщъыьэюяabcdefghijklmnopqrstuvwxyz ",
                    replacements: RU_REPLACEMENTS,
                    exceptions: "",
                    mode: Mode::Startswith,
                }),
            ),
    {
        let b = Builder {
            bypasses: RU_BYPASSES,
            prefixes_first: RU_PREFIXES_FIRST,
            prefixes_second: RU_PREFIXES_SECOND,
            short: "бля бл нах манда сучка мозгоеб мозгоебина",
            alphabet: "абвгдеёжзийклмнопрстуфхцчшщъыьэюяabcdefghijklmnopqrstuvwxyz ",
            replacements: RU_REPLACEMENTS,
            exceptions: "",
            mode: Mode::Startswith,
        };
        proof {
            reveal_strlit("ia-я yo-е ё-е 6-б 3-з 0-о c-с p-р /\\-л");
            reveal_strlit("a-а b-б v-в g-г d-д e-е zh-ж z-з i-и k-к l-л m-м n-н o-о p-п r-р s-с t-т u-у f-ф h-х c-ц ch-ч sh-ш yu-ю ya-я");
            reveal_with_fuel(paired_at, 40);
            assert(well_paired(RU_BYPASSES@));
            reveal_with_fuel(paired_at, 11);
            assert(paired_at(RU_REPLACEMENTS@, 10) == (true, true));
            assert(paired_at(RU_REPLACEMENTS@, 20) == (true, false));
            assert(paired_at(RU_REPLACEMENTS@, 30) == (true, false));
            assert(paired_at(RU_REPLACEMENTS@, 40) == (true, true));
            assert(paired_at(RU_REPLACEMENTS@, 50) == (true, false));
            assert(paired_at(RU_REPLACEMENTS@, 60) == (true, true));
            assert(paired_at(RU_REPLACEMENTS@, 70) == (true, false));
            assert(paired_at(RU_REPLACEMENTS@, 80) == (true, true));
            assert(paired_at(RU_REPLACEMENTS@, 90) == (true, false));
            assert(paired_at(RU_REPLACEMENTS@, 100) == (true, false));
            assert(paired_at(RU_REPLACEMENTS@, 108) == (true, true));
            assert(well_paired(RU_REPLACEMENTS@));
            lemma_well_paired_parses(RU_BYPASSES@);
            lemma_well_paired_parses(RU_REPLACEMENTS@);
        }
        match b.build() {
            Ok(a) => a,
            Err(_) => {
                proof {
                    assert(false);
                }
                Antiswear::new()
            },
        }
    }
}

impl<'a> Builder<'a> {
    /// The profile this descriptor describes. The alphabet gains every
    /// bypass `from` and a space; the prefix list holds the second roots and
    /// every first root joined with every second root.
    pub fn build(self) -> (r: Result<Antiswear, DescriptorError>)
        ensures
            r is Ok <==> (table_of(self.bypasses@) is Some && table_of(self.replacements@) is Some),
            match r {
                Ok(a) => a.built_from(&self),
                Err(e) => e == DescriptorError::MissingSeparator,
            },
    {
        let bypasses = match Replacement::from_str(self.bypasses) {
            Ok(v) => v,
            Err(e) => return Err(e),
        };
        let replacements = match Replacement::from_str(self.replacements) {
            Ok(v) => v,
            Err(e) => return Err(e),
        };
        let ghost bv = rules_view(bypasses@);
        let mut alphabet = String::from_str(self.alphabet);
        let mut i: usize = 0;
        assert(bv.take(0) =~= Seq::<(Seq<char>, Seq<char>)>::empty());
        assert(alphabet@ =~= self.alphabet@ + froms(bv.take(0)));
        while i < bypasses.len()
            invariant
                i <= bypasses@.len(),
                bv == rules_view(bypasses@),
                alphabet@ == self.alphabet@ + froms(bv.take(i as int)),
            decreases bypasses@.len() - i,
        {
            assert(bv.take(i + 1).drop_last() =~= bv.take(i as int));
            alphabet.append(bypasses[i].from.as_str());
            i = i + 1;
            assert(alphabet@ =~= self.alphabet@ + froms(bv.take(i as int)));
        }
        assert(bv.take(i as int) =~= bv);
        alphabet.push(' ');
        assert(alphabet@ =~= self.alphabet@ + froms(bv) + seq![' ']);
        let first = split(self.prefixes_first);
        let second = split(self.prefixes_second);
        let prefixes = crate::utils::add(first, second);
        let short = split(self.short);
        let exceptions = split(self.exceptions);
        let a = Antiswear {
            bypasses,
            prefixes,
            short,
            alphabet,
            replacements,
            exceptions,
            mode: self.mode,
        };
        proof {
            lemma_words_nonempty(self.prefixes_second@);
            lemma_words_nonempty(self.short@);
            lemma_joined_nonempty(words(self.prefixes_first@), words(self.prefixes_second@));
            assert forall|k: int| 0 <= k < a.prefixes@.len() implies #[trigger] a.prefixes@[k]@.len() > 0 by {
                assert(a.prefixes@[k]@ == strings_view(a.prefixes@)[k]);
            }
            assert forall|k: int| 0 <= k < a.short@.len() implies #[trigger] a.short@[k]@.len() > 0 by {
                assert(a.short@[k]@ == strings_view(a.short@)[k]);
                assert(words(self.short@)[k].len() > 0);
            }
        }
        Ok(a)
    }
}

impl AntiswearGroup {
    /// The hit of the first profile that has one, in order.
    pub fn check(&self, text: &str) -> (r: Option<Analyze>)
        ensures
            match r {
                Some(a) => self.check_spec(text@) == Some((a.word@, a.index as int)),
                None => self.check_spec(text@) is None,
            },
            text@.len() == 0 && (forall|k: int| 0 <= k < self.elems@.len() ==> #[trigger] self.elems@[k].wf())
                ==> r is None,
    {
        let mut i: usize = 0;
        while i < self.elems.len()
            invariant
                i <= self.elems@.len(),
                first_hit(self.elems@, text@, 0) == first_hit(self.elems@, text@, i as int),
            decreases self.elems@.len() - i,
        {
            let c = self.elems[i].check(text);
            match c {
                Some(a) => {
                    return Some(a);
                },
                None => {},
            }
            i = i + 1;
        }
        None
    }
}

} // verus!
