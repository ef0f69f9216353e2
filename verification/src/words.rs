use vstd::prelude::*;
use crate::encoder::is_space;
use crate::encoder::space_char;

verus! {

// The dictionary is an injected resource: a list of candidate lines, one
// word each, with no guarantee against blank lines or surrounding
// whitespace. A word source validates it defensively at construction:
// every line is trimmed, blank lines are dropped, and an empty result is
// the startup-fatal configuration error. Afterwards it serves uniformly
// random words from the validated list.

/// `s` without its leading whitespace.
pub open spec fn trim_front(s: Seq<char>) -> Seq<char>
    decreases s.len(),
{
    if s.len() > 0 && is_space(s[0]) {
        trim_front(s.drop_first())
    } else {
        s
    }
}

/// `s` without its trailing whitespace.
pub open spec fn trim_back(s: Seq<char>) -> Seq<char>
    decreases s.len(),
{
    if s.len() > 0 && is_space(s.last()) {
        trim_back(s.drop_last())
    } else {
        s
    }
}

/// `s` without leading and trailing whitespace.
pub open spec fn trimmed(s: Seq<char>) -> Seq<char> {
    trim_back(trim_front(s))
}

/// The usable words of a list of candidate lines: each line trimmed, the
/// blank ones dropped, order kept.
pub open spec fn clean_lines(ls: Seq<Seq<char>>) -> Seq<Seq<char>>
    decreases ls.len(),
{
    if ls.len() == 0 {
        Seq::empty()
    } else {
        let pre = clean_lines(ls.drop_last());
        let t = trimmed(ls.last());
        if t.len() > 0 {
            pre.push(t)
        } else {
            pre
        }
    }
}

/// Dropping a wholly-whitespace prefix is exactly `trim_front`.
proof fn lemma_trim_front_skip(s: Seq<char>, a: int)
    requires
        0 <= a <= s.len(),
        forall|k: int| 0 <= k < a ==> is_space(s[k]),
        a == s.len() || !is_space(s[a]),
    ensures
        trim_front(s) == s.skip(a),
    decreases a,
{
    if a == 0 {
        assert(s.skip(0) =~= s);
    } else {
        lemma_trim_front_skip(s.drop_first(), a - 1);
        assert(s.drop_first().skip(a - 1) =~= s.skip(a));
    }
}

/// Dropping a wholly-whitespace suffix is exactly `trim_back`.
proof fn lemma_trim_back_take(s: Seq<char>, b: int)
    requires
        0 <= b <= s.len(),
        forall|k: int| b <= k < s.len() ==> is_space(s[k]),
        b == 0 || !is_space(s[b - 1]),
    ensures
        trim_back(s) == s.take(b),
    decreases s.len(),
{
    if b < s.len() {
        lemma_trim_back_take(s.drop_last(), b);
        assert(s.take(b) =~= s.drop_last().take(b));
    } else {
        assert(s.take(b) =~= s);
    }
}

/// The position of the first non-whitespace character, or the length.
fn first_non_space(input: &str) -> (a: usize)
    ensures
        a <= input@.len(),
        forall|k: int| 0 <= k < a ==> is_space(input@[k]),
        a == input@.len() || !is_space(input@[a as int]),
{
    let n = input.unicode_len();
    let mut a: usize = 0;
    loop
        invariant
            a <= n,
            n == input@.len(),
            forall|k: int| 0 <= k < a ==> is_space(input@[k]),
        decreases n - a,
    {
        if a >= n {
            return a;
        }
        if !space_char(input.get_char(a)) {
            return a;
        }
        a += 1;
    }
}

/// One past the position of the last non-whitespace character, or zero.
fn last_non_space(input: &str) -> (b: usize)
    ensures
        b <= input@.len(),
        forall|k: int| b <= k < input@.len() ==> is_space(input@[k]),
        b == 0 || !is_space(input@[b - 1]),
{
    let n = input.unicode_len();
    let mut b: usize = n;
    loop
        invariant
            b <= n,
            n == input@.len(),
            forall|k: int| b <= k < n ==> is_space(input@[k]),
        decreases b,
    {
        if b == 0 {
            return b;
        }
        if !space_char(input.get_char(b - 1)) {
            return b;
        }
        b -= 1;
    }
}

/// Removes leading and trailing whitespace. A non-empty result neither
/// starts nor ends with whitespace.
pub fn trim(input: &str) -> (r: String)
    ensures
        r@ == trimmed(input@),
        r@.len() > 0 ==> !is_space(r@[0]) && !is_space(r@.last()),
{
    let a = first_non_space(input);
    let b = last_non_space(input);
    if a >= b {
        proof {
            lemma_trim_front_skip(input@, input@.len() as int);
            assert(input@.skip(input@.len() as int) =~= Seq::<char>::empty());
        }
        String::new()
    } else {
        let sub = input.substring_char(a, b);
        proof {
            lemma_trim_front_skip(input@, a as int);
            lemma_trim_back_take(input@.skip(a as int), b - a);
            assert(input@.skip(a as int).take(b - a) =~= input@.subrange(a as int, b as int));
        }
        sub.to_owned()
    }
}

/// Relies on `rand::random_range` over `0..n`: returns a uniformly random
/// index strictly below `n`. It panics only on an empty range, which the
/// precondition excludes.
#[verifier::external_body]
fn random_below(n: usize) -> (r: usize)
    requires
        n >= 1,
    ensures
        r < n,
{
    rand::random_range(0..n)
}

/// A validated dictionary that serves uniformly random words.
pub struct WordSource {
    pub words: Vec<String>,
}

impl WordSource {
    /// The dictionary entries as character sequences.
    pub open spec fn entries(&self) -> Seq<Seq<char>> {
        self.words@.map_values(|w: String| w@)
    }

    /// A usable word source holds at least one word, and every word is
    /// non-empty with no surrounding whitespace.
    pub open spec fn wf(&self) -> bool {
        &&& self.entries().len() > 0
        &&& forall|i: int|
            0 <= i < self.entries().len() ==> (#[trigger] self.entries()[i]).len() > 0
                && !is_space(self.entries()[i][0]) && !is_space(self.entries()[i].last())
    }

    /// Builds a word source from candidate lines: each line is trimmed and
    /// blank lines are dropped. Returns `None` exactly when no usable word
    /// remains — the startup-fatal empty-dictionary configuration error.
    pub fn new(lines: &Vec<String>) -> (r: Option<WordSource>)
        ensures
            match r {
                Some(ws) => ws.wf() && ws.entries() == clean_lines(
                    lines@.map_values(|l: String| l@),
                ),
                None => clean_lines(lines@.map_values(|l: String| l@)).len() == 0,
            },
    {
        let ghost all = lines@.map_values(|l: String| l@);
        let mut words: Vec<String> = Vec::new();
        let mut i: usize = 0;
        while i < lines.len()
            invariant
                i <= lines@.len(),
                all == lines@.map_values(|l: String| l@),
                words@.map_values(|w: String| w@) == clean_lines(all.take(i as int)),
                forall|j: int|
                    0 <= j < words@.len() ==> (#[trigger] words@[j]@).len() > 0 && !is_space(
                        words@[j]@[0],
                    ) && !is_space(words@[j]@.last()),
            decreases lines@.len() - i,
        {
            proof {
                assert(all.take(i + 1).drop_last() =~= all.take(i as int));
                assert(all.take(i + 1).last() == all[i as int]);
            }
            let w = trim(lines[i].as_str());
            if !w.as_str().is_empty() {
                let ghost old_views = words@.map_values(|w: String| w@);
                words.push(w);
                proof {
                    assert(words@.map_values(|w: String| w@) =~= old_views.push(
                        clean_lines(all.take(i + 1)).last(),
                    ));
                }
            }
            i += 1;
        }
        proof {
            assert(all.take(all.len() as int) =~= all);
        }
        if words.len() == 0 {
            None
        } else {
            Some(WordSource { words })
        }
    }

    /// Draws one word from the dictionary, uniformly at random with
    /// replacement; the result is always a dictionary entry.
    pub fn next_word(&self) -> (w: String)
        requires
            self.wf(),
        ensures
            self.entries().contains(w@),
    {
        let i = random_below(self.words.len());
        let w = self.words[i].clone();
        proof {
            assert(self.entries()[i as int] == w@);
        }
        w
    }

    /// Whether `w` is an entry of this dictionary.
    pub fn contains_word(&self, w: &String) -> (r: bool)
        ensures
            r == self.entries().contains(w@),
    {
        let mut i: usize = 0;
        while i < self.words.len()
            invariant
                i <= self.words@.len(),
                forall|j: int| 0 <= j < i ==> self.entries()[j] != w@,
            decreases self.words@.len() - i,
        {
            if self.words[i].eq(w) {
                proof {
                    assert(self.entries()[i as int] == w@);
                }
                return true;
            }
            i += 1;
        }
        false
    }
}

} // verus!
