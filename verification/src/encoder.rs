use vstd::prelude::*;
use vstd::seq_lib::lemma_multiset_commutative;

verus! {

// The cipher transforms each whitespace-delimited token of its input
// independently: lowercase vowels advance one step along the cycle
// `a -> e -> i -> o -> u -> a`, consonants are redistributed over the
// consonant positions in reverse order of occurrence, and every other
// character passes through unchanged. Tokens are rejoined with a single
// space.
//
// The alphabetic test is deliberately restricted to ASCII lowercase
// letters, matching the lowercase-ASCII dictionary this trainer draws
// from: uppercase and non-ASCII letters pass through unchanged. The
// whitespace test is likewise ASCII whitespace (space, tab, line feed,
// form feed, carriage return).

/// The five lowercase vowels of the cipher's vowel cycle.
pub open spec fn is_vowel(c: char) -> bool {
    c == 'a' || c == 'e' || c == 'i' || c == 'o' || c == 'u'
}

/// The successor of a vowel in the cycle `a -> e -> i -> o -> u -> a`.
pub open spec fn next_vowel(c: char) -> char {
    if c == 'a' {
        'e'
    } else if c == 'e' {
        'i'
    } else if c == 'i' {
        'o'
    } else if c == 'o' {
        'u'
    } else {
        'a'
    }
}

/// A consonant is an ASCII lowercase letter that is not a vowel.
pub open spec fn is_consonant(c: char) -> bool {
    97 <= c as u32 <= 122 && !is_vowel(c)
}

/// ASCII whitespace: space, tab, line feed, form feed, carriage return.
pub open spec fn is_space(c: char) -> bool {
    c == ' ' || c == '\t' || c == '\n' || c == '\u{c}' || c == '\r'
}

/// The consonants of `s` in their original left-to-right order.
pub open spec fn consonant_run(s: Seq<char>) -> Seq<char>
    decreases s.len(),
{
    if s.len() == 0 {
        Seq::empty()
    } else {
        let pre = consonant_run(s.drop_last());
        if is_consonant(s.last()) {
            pre.push(s.last())
        } else {
            pre
        }
    }
}

/// The character a single token's encoding places at position `i`: a vowel
/// advances along the cycle, the k-th consonant position receives the k-th
/// element of the reversed consonant run, everything else is unchanged.
pub open spec fn encoded_char_at(s: Seq<char>, i: int) -> char {
    if is_vowel(s[i]) {
        next_vowel(s[i])
    } else if is_consonant(s[i]) {
        consonant_run(s).reverse()[consonant_run(s.take(i)).len() as int]
    } else {
        s[i]
    }
}

/// The encoding of one whitespace-free token.
pub open spec fn encode_token(s: Seq<char>) -> Seq<char> {
    Seq::new(s.len(), |i: int| encoded_char_at(s, i))
}

/// The whitespace-delimited tokens of `s`, in order, without empties.
pub open spec fn tokens(s: Seq<char>) -> Seq<Seq<char>>
    decreases s.len(),
{
    if s.len() == 0 {
        Seq::empty()
    } else {
        let pre = tokens(s.drop_last());
        let c = s.last();
        if is_space(c) {
            pre
        } else if s.len() >= 2 && !is_space(s[s.len() - 2]) {
            pre.update(pre.len() - 1, pre.last().push(c))
        } else {
            pre.push(seq![c])
        }
    }
}

/// The given token sequence joined with single spaces.
pub open spec fn join_spaced(ts: Seq<Seq<char>>) -> Seq<char>
    decreases ts.len(),
{
    if ts.len() == 0 {
        Seq::empty()
    } else if ts.len() == 1 {
        ts[0]
    } else {
        join_spaced(ts.drop_last()) + seq![' '] + ts.last()
    }
}

/// The encoding of a whole input: each token encoded independently, the
/// results joined with a single space. Inter-token spacing width and
/// leading or trailing whitespace are not preserved.
pub open spec fn encode_spec(s: Seq<char>) -> Seq<char> {
    join_spaced(tokens(s).map_values(|t: Seq<char>| encode_token(t)))
}

/// The vowel following `c` on the cycle, or `None` if `c` is no vowel.
pub fn vowel_successor(c: char) -> (r: Option<char>)
    ensures
        r == if is_vowel(c) {
            Some(next_vowel(c))
        } else {
            None::<char>
        },
{
    if c == 'a' {
        Some('e')
    } else if c == 'e' {
        Some('i')
    } else if c == 'i' {
        Some('o')
    } else if c == 'o' {
        Some('u')
    } else if c == 'u' {
        Some('a')
    } else {
        None
    }
}

/// Whether `c` is a consonant in this cipher's sense.
pub fn consonant_char(c: char) -> (r: bool)
    ensures
        r == is_consonant(c),
{
    let u = c as u32;
    97 <= u && u <= 122 && c != 'a' && c != 'e' && c != 'i' && c != 'o' && c != 'u'
}

/// Whether `c` is ASCII whitespace.
pub fn space_char(c: char) -> (r: bool)
    ensures
        r == is_space(c),
{
    c == ' ' || c == '\t' || c == '\n' || c == '\u{c}' || c == '\r'
}

/// Relies on `String::push` of std: appends the character to the string.
#[verifier::external_body]
pub(crate) fn push_char(s: &mut String, c: char)
    ensures
        final(s)@ == old(s)@.push(c),
{
    s.push(c);
}

/// The consonant count of a prefix never exceeds that of a longer prefix.
proof fn lemma_run_prefix_le(s: Seq<char>, i: int, j: int)
    requires
        0 <= i <= j <= s.len(),
    ensures
        consonant_run(s.take(i)).len() <= consonant_run(s.take(j)).len(),
    decreases j - i,
{
    if i < j {
        lemma_run_prefix_le(s, i, j - 1);
        assert(s.take(j).drop_last() =~= s.take(j - 1));
    }
}

/// Law: every occurrence of a lowercase vowel is mapped to the next vowel
/// of the cycle `a -> e -> i -> o -> u -> a`, regardless of surrounding
/// context.
pub proof fn lemma_vowel_cycle(s: Seq<char>, i: int)
    requires
        0 <= i < s.len(),
        is_vowel(s[i]),
    ensures
        encode_token(s).len() == s.len(),
        encode_token(s)[i] == next_vowel(s[i]),
{
}

/// Law: a character that is neither a lowercase vowel nor a consonant
/// appears in the encoded token at the same index, unchanged.
pub proof fn lemma_pass_through(s: Seq<char>, i: int)
    requires
        0 <= i < s.len(),
        !is_vowel(s[i]),
        !is_consonant(s[i]),
    ensures
        encode_token(s).len() == s.len(),
        encode_token(s)[i] == s[i],
{
}

/// Every element of a consonant run is a consonant.
proof fn lemma_run_elements(s: Seq<char>, k: int)
    requires
        0 <= k < consonant_run(s).len(),
    ensures
        is_consonant(consonant_run(s)[k]),
    decreases s.len(),
{
    if s.len() > 0 {
        let pre = consonant_run(s.drop_last());
        if k < pre.len() {
            lemma_run_elements(s.drop_last(), k);
        }
    }
}

/// At a consonant position, strictly fewer consonants precede it than the
/// whole input holds.
proof fn lemma_cnt_at_consonant(s: Seq<char>, i: int)
    requires
        0 <= i < s.len(),
        is_consonant(s[i]),
    ensures
        consonant_run(s.take(i)).len() < consonant_run(s).len(),
{
    assert(s.take(i + 1).drop_last() =~= s.take(i));
    assert(s.take(i + 1).last() == s[i]);
    lemma_run_prefix_le(s, i + 1, s.len() as int);
    assert(s.take(s.len() as int) =~= s);
}

/// Encoding preserves each position's character class: a position holds a
/// consonant after encoding exactly when it held one before.
proof fn lemma_class_preserved(s: Seq<char>, i: int)
    requires
        0 <= i < s.len(),
    ensures
        is_consonant(encode_token(s)[i]) == is_consonant(s[i]),
{
    if is_consonant(s[i]) {
        lemma_cnt_at_consonant(s, i);
        let run = consonant_run(s);
        let cnt = consonant_run(s.take(i)).len() as int;
        assert(run.reverse()[cnt] == run[run.len() - 1 - cnt]);
        lemma_run_elements(s, run.len() - 1 - cnt);
    }
}

/// The consonants of an encoded prefix are a prefix of the reversed run.
proof fn lemma_rev_aux(s: Seq<char>, i: int)
    requires
        0 <= i <= s.len(),
    ensures
        consonant_run(encode_token(s).take(i)) == consonant_run(s).reverse().take(
            consonant_run(s.take(i)).len() as int,
        ),
    decreases i,
{
    let out = encode_token(s);
    let rev = consonant_run(s).reverse();
    if i == 0 {
        assert(consonant_run(out.take(0)) =~= rev.take(0));
    } else {
        lemma_rev_aux(s, i - 1);
        assert(out.take(i).drop_last() =~= out.take(i - 1));
        assert(out.take(i).last() == out[i - 1]);
        assert(s.take(i).drop_last() =~= s.take(i - 1));
        assert(s.take(i).last() == s[i - 1]);
        let cnt = consonant_run(s.take(i - 1)).len() as int;
        lemma_class_preserved(s, i - 1);
        if is_consonant(s[i - 1]) {
            lemma_cnt_at_consonant(s, i - 1);
            assert(out[i - 1] == rev[cnt]);
            assert(consonant_run(out.take(i)) == consonant_run(out.take(i - 1)).push(out[i - 1]));
            assert(rev.take(cnt).push(rev[cnt]) =~= rev.take(cnt + 1));
            assert(consonant_run(s.take(i)).len() as int == cnt + 1);
        } else {
            assert(consonant_run(out.take(i)) == consonant_run(out.take(i - 1)));
            assert(consonant_run(s.take(i)).len() as int == cnt);
        }
    }
}

/// Law: the consonants of an encoded token are exactly the consonants of
/// the input in reverse positional order; in particular no consonant is
/// invented or dropped, so the consonant multisets agree.
pub proof fn lemma_consonant_reversal(s: Seq<char>)
    ensures
        consonant_run(encode_token(s)) == consonant_run(s).reverse(),
        consonant_run(encode_token(s)).to_multiset() == consonant_run(s).to_multiset(),
{
    lemma_rev_aux(s, s.len() as int);
    let out = encode_token(s);
    let run = consonant_run(s);
    assert(out.take(s.len() as int) =~= out);
    assert(s.take(s.len() as int) =~= s);
    assert(run.reverse().take(run.len() as int) =~= run.reverse());
    run.lemma_reverse_to_multiset();
}

/// Law: the encoding of a whole input depends only on its token sequence,
/// so inputs that differ merely in leading, trailing or inter-token
/// whitespace width encode to the same string.
pub proof fn lemma_whitespace_collapsing(s1: Seq<char>, s2: Seq<char>)
    requires
        tokens(s1) == tokens(s2),
    ensures
        encode_spec(s1) == encode_spec(s2),
{
}

/// A well-formed token sequence: every token is non-empty and free of
/// whitespace. `tokens` produces only such sequences.
spec fn wf_tokens(ts: Seq<Seq<char>>) -> bool {
    forall|i: int|
        0 <= i < ts.len() ==> (#[trigger] ts[i]).len() > 0 && (forall|j: int|
            0 <= j < ts[i].len() ==> !is_space(#[trigger] ts[i][j]))
}

/// An input that ends in a non-whitespace character has at least one token.
proof fn lemma_tokens_nonempty(s: Seq<char>)
    requires
        s.len() > 0,
        !is_space(s.last()),
    ensures
        tokens(s).len() > 0,
    decreases s.len(),
{
    if s.len() >= 2 && !is_space(s[s.len() - 2]) {
        lemma_tokens_nonempty(s.drop_last());
    }
}

/// The token sequence of any input is well formed.
proof fn lemma_tokens_wf(s: Seq<char>)
    ensures
        wf_tokens(tokens(s)),
    decreases s.len(),
{
    if s.len() > 0 {
        lemma_tokens_wf(s.drop_last());
        let pre = tokens(s.drop_last());
        let c = s.last();
        if !is_space(c) {
            if s.len() >= 2 && !is_space(s[s.len() - 2]) {
                lemma_tokens_nonempty(s.drop_last());
                let ts = pre.update(pre.len() - 1, pre.last().push(c));
                assert forall|i: int| 0 <= i < ts.len() implies (#[trigger] ts[i]).len() > 0 && (
                forall|j: int| 0 <= j < ts[i].len() ==> !is_space(#[trigger] ts[i][j])) by {
                    if i == ts.len() - 1 {
                        assert(ts[i] == pre.last().push(c));
                        assert(forall|j: int|
                            0 <= j < pre.last().len() ==> !is_space(#[trigger] pre.last()[j]));
                    } else {
                        assert(ts[i] == pre[i]);
                    }
                }
            } else {
                let ts = pre.push(seq![c]);
                assert forall|i: int| 0 <= i < ts.len() implies (#[trigger] ts[i]).len() > 0 && (
                forall|j: int| 0 <= j < ts[i].len() ==> !is_space(#[trigger] ts[i][j])) by {
                    if i == ts.len() - 1 {
                        assert(ts[i] == seq![c]);
                    } else {
                        assert(ts[i] == pre[i]);
                    }
                }
            }
        }
    }
}

/// A whitespace-free, non-empty prefix of a token is one whole token.
proof fn lemma_tokens_single(t: Seq<char>, i: int)
    requires
        1 <= i <= t.len(),
        forall|j: int| 0 <= j < t.len() ==> !is_space(#[trigger] t[j]),
    ensures
        tokens(t.take(i)) == seq![t.take(i)],
    decreases i,
{
    assert(t.take(i).drop_last() =~= t.take(i - 1));
    assert(t.take(i).last() == t[i - 1]);
    if i == 1 {
        assert(seq![t.take(1)] =~~= tokens(t.take(0)).push(seq![t[0]]));
    } else {
        lemma_tokens_single(t, i - 1);
        assert(t.take(i)[i - 2] == t[i - 2]);
        assert(t.take(i - 1).push(t[i - 1]) =~= t.take(i));
        assert(seq![t.take(i - 1)].update(0, t.take(i)) =~= seq![t.take(i)]);
    }
}

/// Appending one space leaves the token sequence unchanged.
proof fn lemma_tokens_append_space(v: Seq<char>)
    ensures
        tokens(v.push(' ')) == tokens(v),
{
    assert(v.push(' ').drop_last() =~= v);
    assert(v.push(' ').last() == ' ');
}

/// Appending a whitespace-free token after a space appends one token.
proof fn lemma_tokens_append_token(v: Seq<char>, t: Seq<char>, i: int)
    requires
        1 <= i <= t.len(),
        forall|j: int| 0 <= j < t.len() ==> !is_space(#[trigger] t[j]),
        v.len() == 0 || is_space(v.last()),
    ensures
        tokens(v + t.take(i)) == tokens(v).push(t.take(i)),
    decreases i,
{
    let s = v + t.take(i);
    assert(s.drop_last() =~= v + t.take(i - 1));
    assert(s.last() == t[i - 1]);
    if i == 1 {
        assert(v + t.take(0) =~= v);
        if v.len() > 0 {
            assert(s[s.len() - 2] == v.last());
        }
        assert(seq![t.take(1)] =~~= Seq::<Seq<char>>::empty().push(seq![t[0]]));
        assert(tokens(v).push(seq![t[0]]) =~~= tokens(v).push(t.take(1)));
    } else {
        lemma_tokens_append_token(v, t, i - 1);
        assert(s[s.len() - 2] == t[i - 2]);
        let pre = tokens(v).push(t.take(i - 1));
        assert(t.take(i - 1).push(t[i - 1]) =~= t.take(i));
        assert(pre.update(pre.len() - 1, t.take(i)) =~= tokens(v).push(t.take(i)));
    }
}

/// Splitting a single-space join of well-formed tokens gives them back.
proof fn lemma_tokens_of_join(ts: Seq<Seq<char>>)
    requires
        wf_tokens(ts),
    ensures
        tokens(join_spaced(ts)) == ts,
    decreases ts.len(),
{
    if ts.len() == 0 {
        assert(tokens(join_spaced(ts)) =~= ts);
    } else if ts.len() == 1 {
        let t = ts[0];
        lemma_tokens_single(t, t.len() as int);
        assert(t.take(t.len() as int) =~= t);
        assert(seq![t] =~= ts);
    } else {
        assert(wf_tokens(ts.drop_last())) by {
            assert(forall|i: int| 0 <= i < ts.len() - 1 ==> ts.drop_last()[i] == ts[i]);
        }
        lemma_tokens_of_join(ts.drop_last());
        let u = join_spaced(ts.drop_last());
        let t = ts.last();
        lemma_tokens_append_space(u);
        assert(u + seq![' '] =~= u.push(' '));
        assert(u.push(' ').last() == ' ');
        lemma_tokens_append_token(u.push(' '), t, t.len() as int);
        assert(t.take(t.len() as int) =~= t);
        assert(u.push(' ') + t.take(t.len() as int) =~= join_spaced(ts));
        assert(ts.drop_last().push(t) =~= ts);
    }
}

/// A consonant is never whitespace.
proof fn lemma_consonant_not_space(c: char)
    ensures
        is_consonant(c) ==> !is_space(c),
{
    if is_space(c) {
        assert((c as u32) < 97);
    }
}

/// Encoding a well-formed token yields a well-formed token.
proof fn lemma_encode_token_wf(t: Seq<char>)
    requires
        t.len() > 0,
        forall|j: int| 0 <= j < t.len() ==> !is_space(#[trigger] t[j]),
    ensures
        encode_token(t).len() > 0,
        forall|j: int| 0 <= j < encode_token(t).len() ==> !is_space(#[trigger] encode_token(t)[j]),
{
    assert forall|j: int| 0 <= j < encode_token(t).len() implies !is_space(
        #[trigger] encode_token(t)[j],
    ) by {
        if is_vowel(t[j]) {
        } else if is_consonant(t[j]) {
            lemma_class_preserved(t, j);
            lemma_consonant_not_space(encode_token(t)[j]);
        }
    }
}

/// Law: the output of `encode_spec` is in collapsed form: its
/// whitespace-delimited tokens are exactly the encodings of the input's
/// tokens, separated by single spaces, with nothing before or after.
pub proof fn lemma_output_single_spaced(s: Seq<char>)
    ensures
        tokens(encode_spec(s)) == tokens(s).map_values(|t: Seq<char>| encode_token(t)),
{
    lemma_tokens_wf(s);
    let enc = tokens(s).map_values(|t: Seq<char>| encode_token(t));
    assert forall|i: int| 0 <= i < enc.len() implies (#[trigger] enc[i]).len() > 0 && (forall|
        j: int,
    | 0 <= j < enc[i].len() ==> !is_space(#[trigger] enc[i][j])) by {
        lemma_encode_token_wf(tokens(s)[i]);
    }
    lemma_tokens_of_join(enc);
}

/// The consonants of a concatenation are the consonants of its parts.
proof fn lemma_run_append(a: Seq<char>, b: Seq<char>)
    ensures
        consonant_run(a + b) == consonant_run(a) + consonant_run(b),
    decreases b.len(),
{
    if b.len() == 0 {
        assert(a + b =~= a);
        assert(consonant_run(a) + consonant_run(b) =~= consonant_run(a));
    } else {
        lemma_run_append(a, b.drop_last());
        assert((a + b).drop_last() =~= a + b.drop_last());
        assert((a + b).last() == b.last());
        if is_consonant(b.last()) {
            assert(consonant_run(a) + consonant_run(b) =~= (consonant_run(a) + consonant_run(
                b.drop_last(),
            )).push(b.last()));
        }
    }
}

/// The consonants of each token, concatenated in token order.
spec fn runs_of(ts: Seq<Seq<char>>) -> Seq<char>
    decreases ts.len(),
{
    if ts.len() == 0 {
        Seq::empty()
    } else {
        runs_of(ts.drop_last()) + consonant_run(ts.last())
    }
}

/// A single-space join holds exactly its tokens' consonants.
proof fn lemma_run_of_join(ts: Seq<Seq<char>>)
    ensures
        consonant_run(join_spaced(ts)) == runs_of(ts),
    decreases ts.len(),
{
    if ts.len() == 0 {
    } else if ts.len() == 1 {
        assert(ts.drop_last().len() == 0);
        assert(runs_of(ts.drop_last()) =~= Seq::<char>::empty());
        assert(runs_of(ts) =~= consonant_run(ts[0]));
    } else {
        lemma_run_of_join(ts.drop_last());
        let u = join_spaced(ts.drop_last());
        lemma_run_append(u, seq![' ']);
        lemma_run_append(u + seq![' '], ts.last());
        assert(seq![' '].drop_last() =~= Seq::<char>::empty());
        assert(consonant_run(Seq::<char>::empty()) =~= Seq::<char>::empty());
        assert(consonant_run(seq![' ']) =~= Seq::<char>::empty());
        assert(consonant_run(join_spaced(ts)) =~= runs_of(ts));
    }
}

/// Tokenizing loses no consonant: the input's consonant run is the
/// concatenation of its tokens' runs.
proof fn lemma_run_decomposes(s: Seq<char>)
    ensures
        consonant_run(s) == runs_of(tokens(s)),
    decreases s.len(),
{
    if s.len() > 0 {
        lemma_run_decomposes(s.drop_last());
        let pre = tokens(s.drop_last());
        let c = s.last();
        if is_space(c) {
            lemma_consonant_not_space(c);
        } else if s.len() >= 2 && !is_space(s[s.len() - 2]) {
            lemma_tokens_nonempty(s.drop_last());
            let ts = pre.update(pre.len() - 1, pre.last().push(c));
            assert(ts.drop_last() =~~= pre.drop_last());
            assert(ts.last() == pre.last().push(c));
            assert((pre.last().push(c)).drop_last() =~= pre.last());
            if is_consonant(c) {
                assert(runs_of(ts) =~= runs_of(pre).push(c));
            } else {
                assert(runs_of(ts) =~= runs_of(pre));
            }
        } else {
            let ts = pre.push(seq![c]);
            assert(ts.drop_last() =~~= pre);
            assert(ts.last() == seq![c]);
            assert(seq![c].drop_last() =~= Seq::<char>::empty());
            assert(consonant_run(Seq::<char>::empty()) =~= Seq::<char>::empty());
            if is_consonant(c) {
                assert(consonant_run(seq![c]) =~= Seq::<char>::empty().push(c));
                assert(runs_of(ts) =~= runs_of(pre).push(c));
            } else {
                assert(consonant_run(seq![c]) =~= Seq::<char>::empty());
                assert(runs_of(ts) =~= runs_of(pre));
            }
        }
    }
}

/// Token-wise encoding keeps the multiset of all consonants.
proof fn lemma_runs_multiset(ts: Seq<Seq<char>>)
    ensures
        runs_of(ts.map_values(|t: Seq<char>| encode_token(t))).to_multiset() == runs_of(
            ts,
        ).to_multiset(),
    decreases ts.len(),
{
    let enc = ts.map_values(|t: Seq<char>| encode_token(t));
    if ts.len() == 0 {
        assert(enc.len() == 0);
    } else {
        lemma_runs_multiset(ts.drop_last());
        assert(enc.drop_last() =~~= ts.drop_last().map_values(|t: Seq<char>| encode_token(t)));
        assert(enc.last() == encode_token(ts.last()));
        lemma_consonant_reversal(ts.last());
        lemma_multiset_commutative(runs_of(enc.drop_last()), consonant_run(enc.last()));
        lemma_multiset_commutative(runs_of(ts.drop_last()), consonant_run(ts.last()));
    }
}

/// Law: over a whole input, encoding neither invents nor drops a
/// consonant: the multiset of the output's consonants equals the
/// multiset of the input's. The positional reversal itself holds within
/// each token; see `lemma_consonant_reversal`.
pub proof fn lemma_consonants_conserved(s: Seq<char>)
    ensures
        consonant_run(encode_spec(s)).to_multiset() == consonant_run(s).to_multiset(),
{
    lemma_run_of_join(tokens(s).map_values(|t: Seq<char>| encode_token(t)));
    lemma_runs_multiset(tokens(s));
    lemma_run_decomposes(s);
}

/// Law: the empty input encodes to the empty string.
pub proof fn lemma_encode_empty()
    ensures
        encode_spec(Seq::<char>::empty()) == Seq::<char>::empty(),
{
    assert(tokens(Seq::<char>::empty()).map_values(|t: Seq<char>| encode_token(t)) =~= Seq::<
        Seq<char>,
    >::empty());
}

/// Encodes one whitespace-free token.
pub fn encode_word(input: &str) -> (r: String)
    ensures
        r@ == encode_token(input@),
{
    let s = Ghost(input@);
    let n = input.unicode_len();
    let mut run: Vec<char> = Vec::new();
    let mut j: usize = 0;
    while j < n
        invariant
            j <= n,
            n == s@.len(),
            s@ == input@,
            run@ == consonant_run(s@.take(j as int)),
        decreases n - j,
    {
        let c = input.get_char(j);
        proof {
            assert(s@.take(j + 1).drop_last() =~= s@.take(j as int));
            assert(s@.take(j + 1).last() == s@[j as int]);
        }
        if consonant_char(c) {
            run.push(c);
        }
        j += 1;
    }
    proof {
        assert(s@.take(n as int) =~= s@);
    }
    let mut out = String::new();
    let mut k: usize = 0;
    let mut i: usize = 0;
    while i < n
        invariant
            i <= n,
            n == s@.len(),
            s@ == input@,
            run@ == consonant_run(s@),
            k == consonant_run(s@.take(i as int)).len(),
            out@.len() == i as int,
            forall|t: int| 0 <= t < i ==> out@[t] == encode_token(s@)[t],
        decreases n - i,
    {
        let c = input.get_char(i);
        proof {
            assert(s@.take(i + 1).drop_last() =~= s@.take(i as int));
            assert(s@.take(i + 1).last() == s@[i as int]);
        }
        if let Some(v) = vowel_successor(c) {
            push_char(&mut out, v);
        } else if consonant_char(c) {
            proof {
                lemma_run_prefix_le(s@, i + 1, s@.len() as int);
                assert(s@.take(s@.len() as int) =~= s@);
                assert(consonant_run(s@.take(i + 1)).len() == k + 1);
            }
            let idx = run.len() - 1 - k;
            let d = run[idx];
            proof {
                assert(consonant_run(s@).reverse()[k as int] == consonant_run(s@)[run@.len() - 1
                    - k]);
            }
            push_char(&mut out, d);
            k += 1;
        } else {
            push_char(&mut out, c);
        }
        i += 1;
    }
    proof {
        assert(out@ =~= encode_token(s@));
    }
    out
}

/// Splits the input into its whitespace-delimited tokens.
pub fn split_tokens(input: &str) -> (r: Vec<String>)
    ensures
        r@.map_values(|t: String| t@) == tokens(input@),
{
    let s = Ghost(input@);
    let n = input.unicode_len();
    let mut toks: Vec<String> = Vec::new();
    let mut cur: String = String::new();
    let mut i: usize = 0;
    while i < n
        invariant
            i <= n,
            n == s@.len(),
            s@ == input@,
            cur@.len() == 0 ==> toks@.map_values(|t: String| t@) == tokens(s@.take(i as int)) && (i
                == 0 || is_space(s@[i - 1])),
            cur@.len() > 0 ==> toks@.map_values(|t: String| t@).push(cur@) == tokens(
                s@.take(i as int),
            ) && i > 0 && !is_space(s@[i - 1]),
        decreases n - i,
    {
        let c = input.get_char(i);
        proof {
            assert(s@.take(i + 1).drop_last() =~= s@.take(i as int));
            assert(s@.take(i + 1).last() == s@[i as int]);
        }
        let ghost pre = tokens(s@.take(i as int));
        let ghost views = toks@.map_values(|t: String| t@);
        if space_char(c) {
            if !cur.as_str().is_empty() {
                proof {
                    assert(tokens(s@.take(i + 1)) == views.push(cur@));
                }
                let ghost done = cur@;
                toks.push(cur);
                cur = String::new();
                proof {
                    assert(toks@.map_values(|t: String| t@) =~= views.push(done));
                }
            }
        } else {
            if cur.as_str().is_empty() {
                proof {
                    assert(tokens(s@.take(i + 1)) == pre.push(seq![s@[i as int]]));
                }
                push_char(&mut cur, c);
                proof {
                    assert(cur@ =~= seq![s@[i as int]]);
                }
            } else {
                proof {
                    assert(i >= 1 && !is_space(s@[i - 1]));
                    assert(s@.take(i + 1)[i - 1] == s@[i - 1]);
                    assert(tokens(s@.take(i + 1)) == pre.update(
                        pre.len() - 1,
                        pre.last().push(s@[i as int]),
                    ));
                    assert(pre == views.push(cur@));
                    assert(pre.last() == cur@);
                    assert(pre.update(pre.len() - 1, cur@.push(s@[i as int])) =~= views.push(
                        cur@.push(s@[i as int]),
                    ));
                }
                push_char(&mut cur, c);
            }
        }
        i += 1;
    }
    proof {
        assert(s@.take(n as int) =~= s@);
    }
    if !cur.as_str().is_empty() {
        let ghost views = toks@.map_values(|t: String| t@);
        toks.push(cur);
        proof {
            assert(toks@.map_values(|t: String| t@) =~= views.push(cur@));
        }
    }
    toks
}

/// Encodes a whole input: every whitespace-delimited token is encoded
/// independently and the results are joined with a single space.
pub fn encode(input: &str) -> (r: String)
    ensures
        r@ == encode_spec(input@),
{
    let toks = split_tokens(input);
    let ghost enc = tokens(input@).map_values(|t: Seq<char>| encode_token(t));
    let mut res = String::new();
    let mut k: usize = 0;
    while k < toks.len()
        invariant
            k <= toks@.len(),
            toks@.map_values(|t: String| t@) == tokens(input@),
            enc == tokens(input@).map_values(|t: Seq<char>| encode_token(t)),
            res@ == join_spaced(enc.take(k as int)),
        decreases toks@.len() - k,
    {
        if k > 0 {
            push_char(&mut res, ' ');
        }
        let e = encode_word(toks[k].as_str());
        res.append(e.as_str());
        proof {
            assert(enc.take(k + 1).drop_last() =~= enc.take(k as int));
            assert(enc.take(k + 1).last() == enc[k as int]);
            assert(enc[k as int] == encode_token(toks@.map_values(|t: String| t@)[k as int]));
            if k > 0 {
                assert(res@ =~= join_spaced(enc.take(k as int)) + seq![' '] + enc[k as int]);
            } else {
                assert(res@ =~= enc[0]);
            }
        }
        k += 1;
    }
    proof {
        assert(enc.take(enc.len() as int) =~= enc);
    }
    res
}

} // verus!
