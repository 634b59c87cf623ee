//! Comparison modes between a normalized candidate and a dictionary word.
use vstd::prelude::*;

verus! {

/// Whether `w` occurs in `v` starting at position `i`.
pub open spec fn occurs_at(v: Seq<char>, w: Seq<char>, i: int) -> bool {
    0 <= i && i + w.len() <= v.len() && v.subrange(i, i + w.len()) == w
}

pub open spec fn starts_with(v: Seq<char>, w: Seq<char>) -> bool {
    occurs_at(v, w, 0)
}

pub open spec fn ends_with(v: Seq<char>, w: Seq<char>) -> bool {
    occurs_at(v, w, v.len() - w.len())
}

pub open spec fn contains(v: Seq<char>, w: Seq<char>) -> bool {
    exists|i: int| occurs_at(v, w, i)
}

/// How a word of a list is compared against a candidate.
/// For the short-word list `Startswith` is taken as `Equally`, so that short
/// words do not fire on every longer word that begins with them.
#[derive(Clone, Copy, Debug, PartialEq, Eq, Structural)]
pub enum Mode {
    Contains,
    Startswith,
    Endswith,
    Equally,
}

impl Mode {
    /// The comparison of `value` against `word` under this mode.
    pub open spec fn compares(self, value: Seq<char>, word: Seq<char>) -> bool {
        match self {
            Mode::Startswith => starts_with(value, word),
            Mode::Contains => contains(value, word),
            Mode::Endswith => ends_with(value, word),
            Mode::Equally => value == word,
        }
    }

    pub fn is_contains(&self, value: &Vec<char>, word: &Vec<char>) -> (r: bool)
        ensures
            r == self.compares(value@, word@),
    {
        match self {
            Mode::Startswith => occurs_at_exec(value, word, 0),
            Mode::Contains => contains_exec(value, word),
            Mode::Endswith => {
                if word.len() <= value.len() {
                    occurs_at_exec(value, word, value.len() - word.len())
                } else {
                    false
                }
            },
            Mode::Equally => seq_eq(value, word),
        }
    }
}

/// Whether `w` occurs in `v` at position `i`.
pub fn occurs_at_exec(v: &Vec<char>, w: &Vec<char>, i: usize) -> (r: bool)
    ensures
        r == occurs_at(v@, w@, i as int),
{
    if w.len() > v.len() || i > v.len() - w.len() {
        return false;
    }
    let mut j: usize = 0;
    while j < w.len()
        invariant
            i + w@.len() <= v@.len(),
            v@.len() <= usize::MAX,
            j <= w@.len(),
            forall|k: int| 0 <= k < j ==> v@[i + k] == w@[k],
        decreases w@.len() - j,
    {
        if v[i + j] != w[j] {
            assert(v@.subrange(i as int, i + w@.len())[j as int] != w@[j as int]);
            return false;
        }
        j = j + 1;
    }
    assert(v@.subrange(i as int, i + w@.len()) =~= w@);
    true
}

/// Whether `w` occurs anywhere in `v`.
pub fn contains_exec(v: &Vec<char>, w: &Vec<char>) -> (r: bool)
    ensures
        r == contains(v@, w@),
{
    if w.len() > v.len() {
        return false;
    }
    let last = v.len() - w.len();
    let mut i: usize = 0;
    while i <= last
        invariant
            last == v@.len() - w@.len(),
            forall|k: int| 0 <= k < i ==> !occurs_at(v@, w@, k),
        decreases last + 1 - i,
    {
        if occurs_at_exec(v, w, i) {
            return true;
        }
        if i == last {
            assert forall|k: int| !occurs_at(v@, w@, k) by {
                if 0 <= k < i {
                }
            }
            return false;
        }
        i = i + 1;
    }
    false
}

/// Whether `a` and `b` hold the same characters.
pub fn seq_eq(a: &Vec<char>, b: &Vec<char>) -> (r: bool)
    ensures
        r == (a@ == b@),
{
    if a.len() != b.len() {
        return false;
    }
    let r = occurs_at_exec(a, b, 0);
    proof {
        if r {
            assert(a@ =~= a@.subrange(0, b@.len() as int));
        } else {
            assert(a@.subrange(0, a@.len() as int) =~= a@);
        }
    }
    r
}

} // verus!
