//! The mathematical model of the two decomposition passes.
//!
//! `split_on_slash` describes the top-level split of the input on `/`;
//! `granules` describes the second split of one segment into maximal
//! alphanumeric runs and single punctuation characters; `bucket` assigns
//! every atom its lexical category. The public lemmas state the laws the
//! decomposition obeys: the segment count, losslessness, and exhaustive,
//! mutually exclusive bucketing.

use vstd::prelude::*;
use crate::str_checker::{alnum_char, alpha_char, all_alnum, all_alpha, all_digits};

verus! {

/// The number of `/` characters in `s`.
pub open spec fn count_slashes(s: Seq<char>) -> nat
    decreases s.len(),
{
    if s.len() == 0 {
        0
    } else if s.last() == '/' {
        count_slashes(s.drop_last()) + 1
    } else {
        count_slashes(s.drop_last())
    }
}

/// The segments of `s` delimited by `/`: one segment per run between
/// delimiters, empty segments included, and always a trailing segment.
pub open spec fn split_on_slash(s: Seq<char>) -> Seq<Seq<char>>
    decreases s.len(),
{
    if s.len() == 0 {
        seq![Seq::<char>::empty()]
    } else if s.last() == '/' {
        split_on_slash(s.drop_last()).push(Seq::<char>::empty())
    } else {
        let rest = split_on_slash(s.drop_last());
        rest.update(rest.len() - 1, rest.last().push(s.last()))
    }
}

/// The split never yields an empty list of segments.
pub proof fn lemma_split_nonempty(s: Seq<char>)
    ensures
        split_on_slash(s).len() >= 1,
    decreases s.len(),
{
    if s.len() != 0 {
        lemma_split_nonempty(s.drop_last());
    }
}

/// Segment count law: the split yields exactly one segment more than the
/// number of `/` occurrences.
pub proof fn lemma_split_count(s: Seq<char>)
    ensures
        split_on_slash(s).len() == count_slashes(s) + 1,
    decreases s.len(),
{
    if s.len() != 0 {
        lemma_split_count(s.drop_last());
    }
}

/// A plausible scheme token: non-empty, every character but the last an
/// alphabetic letter, and the last character exactly `:`.
pub open spec fn is_protocol(s: Seq<char>) -> bool {
    &&& s.len() > 0
    &&& forall|i: int| 0 <= i < s.len() - 1 ==> alpha_char(s[i])
    &&& s.last() == ':'
}

/// A list of segments is URL-shaped when there are at least three, the
/// first is a protocol, and the second is empty (the `//` after the scheme).
pub open spec fn url_like(toks: Seq<Seq<char>>) -> bool {
    &&& toks.len() >= 3
    &&& is_protocol(toks[0])
    &&& toks[1].len() == 0
}

/// The position of the first character of `s` that occurs in `trig`, or
/// `s.len()` when there is none.
pub open spec fn suffix_trigger_pos(s: Seq<char>, trig: Seq<char>) -> int
    decreases s.len(),
{
    if s.len() == 0 {
        0
    } else if trig.contains(s[0]) {
        0
    } else {
        1 + suffix_trigger_pos(s.drop_first(), trig)
    }
}

/// The part of a segment before its first trigger character; the whole
/// segment when no trigger occurs.
pub open spec fn suffix_head(s: Seq<char>, trig: Seq<char>) -> Seq<char> {
    s.subrange(0, suffix_trigger_pos(s, trig))
}

/// The part of a segment after its first trigger character, the trigger
/// itself dropped; empty when no trigger occurs.
pub open spec fn suffix_tail(s: Seq<char>, trig: Seq<char>) -> Seq<char> {
    let p = suffix_trigger_pos(s, trig);
    if p < s.len() {
        s.subrange(p + 1, s.len() as int)
    } else {
        Seq::<char>::empty()
    }
}

/// The narrow trigger set: only a query or fragment marker starts a suffix.
pub open spec fn narrow_triggers() -> Seq<char> {
    seq!['?', '#']
}

/// The protocol field of a URL-shaped split: the first segment with its
/// trailing `:` stripped; unset otherwise.
pub open spec fn protocol_of(toks: Seq<Seq<char>>) -> Option<Seq<char>> {
    if url_like(toks) {
        Some(toks[0].drop_last())
    } else {
        None
    }
}

/// The host field: the third segment verbatim when more segments follow;
/// with exactly three segments, its part before the first suffix trigger.
pub open spec fn host_of(toks: Seq<Seq<char>>) -> Option<Seq<char>> {
    if url_like(toks) {
        if toks.len() > 3 {
            Some(toks[2])
        } else {
            Some(suffix_head(toks[2], narrow_triggers()))
        }
    } else {
        None
    }
}

/// The directory fields: every segment after the host except the last.
pub open spec fn directories_of(toks: Seq<Seq<char>>) -> Seq<Seq<char>> {
    if url_like(toks) && toks.len() > 3 {
        toks.subrange(3, toks.len() - 1)
    } else {
        Seq::<Seq<char>>::empty()
    }
}

/// The filename field: the last segment's part before the first suffix
/// trigger, present only when a segment follows the host.
pub open spec fn filename_of(toks: Seq<Seq<char>>) -> Option<Seq<char>> {
    if url_like(toks) && toks.len() > 3 {
        Some(suffix_head(toks.last(), narrow_triggers()))
    } else {
        None
    }
}

/// The suffix field: what follows the first suffix trigger of the last
/// segment (of the host segment when exactly three segments exist).
pub open spec fn suffix_of(toks: Seq<Seq<char>>) -> Option<Seq<char>> {
    if url_like(toks) {
        if toks.len() > 3 {
            Some(suffix_tail(toks.last(), narrow_triggers()))
        } else {
            Some(suffix_tail(toks[2], narrow_triggers()))
        }
    } else {
        None
    }
}

/// The first trigger position is a position in the segment, nothing before
/// it is a trigger, and what stands there, if anything, is one.
pub proof fn lemma_trigger_pos(s: Seq<char>, trig: Seq<char>)
    ensures
        0 <= suffix_trigger_pos(s, trig) <= s.len(),
        forall|j: int| 0 <= j < suffix_trigger_pos(s, trig) ==> !trig.contains(s[j]),
        suffix_trigger_pos(s, trig) < s.len() ==> trig.contains(s[suffix_trigger_pos(s, trig)]),
    decreases s.len(),
{
    if s.len() != 0 && !trig.contains(s[0]) {
        lemma_trigger_pos(s.drop_first(), trig);
        let p = suffix_trigger_pos(s, trig);
        assert forall|j: int| 0 < j < p implies !trig.contains(s[j]) by {
            assert(s.drop_first()[j - 1] == s[j]);
        }
        if p < s.len() {
            assert(s.drop_first()[p - 1] == s[p]);
        }
    }
}

/// The atoms of one segment: maximal alphanumeric runs interleaved with
/// single punctuation characters, in original order.
pub open spec fn granules(t: Seq<char>) -> Seq<Seq<char>>
    decreases t.len(),
{
    if t.len() == 0 {
        Seq::<Seq<char>>::empty()
    } else {
        let rest = granules(t.drop_last());
        let c = t.last();
        if !alnum_char(c) {
            rest.push(seq![c])
        } else if rest.len() > 0 && alnum_char(rest.last().last()) {
            rest.update(rest.len() - 1, rest.last().push(c))
        } else {
            rest.push(seq![c])
        }
    }
}

/// The concatenation of a list of atoms, in order.
pub open spec fn concat_granules(gs: Seq<Seq<char>>) -> Seq<char>
    decreases gs.len(),
{
    if gs.len() == 0 {
        Seq::<char>::empty()
    } else {
        concat_granules(gs.drop_last()) + gs.last()
    }
}

/// Every atom of a segment is non-empty, and an atom is either a single
/// punctuation character or a run of alphanumeric characters.
pub proof fn lemma_granules_wf(t: Seq<char>)
    ensures
        forall|i: int| 0 <= i < granules(t).len() ==> #[trigger] granules(t)[i].len() > 0,
        forall|i: int| 0 <= i < granules(t).len()
            ==> all_alnum(#[trigger] granules(t)[i]) || granules(t)[i].len() == 1,
    decreases t.len(),
{
    if t.len() != 0 {
        lemma_granules_wf(t.drop_last());
        let rest = granules(t.drop_last());
        let c = t.last();
        if alnum_char(c) && rest.len() > 0 && alnum_char(rest.last().last()) {
            let g = rest.last().push(c);
            assert(all_alnum(rest.last()) || rest.last().len() == 1);
            assert(all_alnum(rest.last())) by {
                if rest.last().len() == 1 {
                    assert(rest.last()[0] == rest.last().last());
                }
            }
            assert(all_alnum(g)) by {
                assert(forall|j: int| 0 <= j < g.len() - 1 ==> g[j] == rest.last()[j]);
                assert(g.last() == c);
            }
        }
    }
}

/// Lossless decomposition: concatenating the atoms of a segment, in order,
/// reproduces that segment exactly.
pub proof fn lemma_lossless_decomposition(t: Seq<char>)
    ensures
        concat_granules(granules(t)) =~= t,
    decreases t.len(),
{
    if t.len() != 0 {
        lemma_lossless_decomposition(t.drop_last());
        let rest = granules(t.drop_last());
        let c = t.last();
        if !alnum_char(c) || !(rest.len() > 0 && alnum_char(rest.last().last())) {
            assert(granules(t) == rest.push(seq![c]));
            assert(granules(t).drop_last() =~= rest);
            assert(concat_granules(granules(t)) =~= t.drop_last() + seq![c]);
        } else {
            let joined = rest.update(rest.len() - 1, rest.last().push(c));
            assert(granules(t) == joined);
            assert(joined.drop_last() =~= rest.drop_last());
            assert(concat_granules(joined)
                == concat_granules(rest.drop_last()) + rest.last().push(c));
            assert(concat_granules(rest) == concat_granules(rest.drop_last()) + rest.last());
            assert(concat_granules(rest.drop_last()) + rest.last().push(c)
                =~= (concat_granules(rest.drop_last()) + rest.last()).push(c));
        }
    }
}

/// The atoms of a whole list of segments, flattened in order.
pub open spec fn granules_of_all(toks: Seq<Seq<char>>) -> Seq<Seq<char>>
    decreases toks.len(),
{
    if toks.len() == 0 {
        Seq::<Seq<char>>::empty()
    } else {
        granules_of_all(toks.drop_last()) + granules(toks.last())
    }
}

/// Every atom of a whole list of segments is non-empty.
pub proof fn lemma_granules_of_all_wf(toks: Seq<Seq<char>>)
    ensures
        forall|i: int| 0 <= i < granules_of_all(toks).len()
            ==> #[trigger] granules_of_all(toks)[i].len() > 0,
    decreases toks.len(),
{
    if toks.len() != 0 {
        lemma_granules_of_all_wf(toks.drop_last());
        lemma_granules_wf(toks.last());
        let front = granules_of_all(toks.drop_last());
        let back = granules(toks.last());
        assert forall|i: int| 0 <= i < granules_of_all(toks).len()
            implies #[trigger] granules_of_all(toks)[i].len() > 0 by {
            if i < front.len() {
                assert(granules_of_all(toks)[i] == front[i]);
            } else {
                assert(granules_of_all(toks)[i] == back[i - front.len()]);
            }
        }
    }
}

/// The lexical category of one atom, by precedence: digits, then letters,
/// then mixed alphanumeric, then punctuation.
#[derive(PartialEq, Eq, Structural)]
pub enum Category {
    Number,
    Word,
    Alphanumeric,
    Punctuation,
}

pub open spec fn bucket(g: Seq<char>) -> Category {
    if g.len() > 0 && all_digits(g) {
        Category::Number
    } else if g.len() > 0 && all_alpha(g) {
        Category::Word
    } else if g.len() > 0 && all_alnum(g) {
        Category::Alphanumeric
    } else {
        Category::Punctuation
    }
}

/// The atoms of `gs` whose category is `c`, in order.
pub open spec fn of_bucket(gs: Seq<Seq<char>>, c: Category) -> Seq<Seq<char>>
    decreases gs.len(),
{
    if gs.len() == 0 {
        Seq::<Seq<char>>::empty()
    } else if bucket(gs.last()) == c {
        of_bucket(gs.drop_last(), c).push(gs.last())
    } else {
        of_bucket(gs.drop_last(), c)
    }
}

/// An atom stands in the bucket list for `c` exactly when it occurs among
/// the atoms and its category is `c`.
pub proof fn lemma_bucket_membership(gs: Seq<Seq<char>>, c: Category, g: Seq<char>)
    ensures
        of_bucket(gs, c).contains(g) <==> (gs.contains(g) && bucket(g) == c),
    decreases gs.len(),
{
    if gs.len() != 0 {
        lemma_bucket_membership(gs.drop_last(), c, g);
        assert(gs.contains(g) <==> (gs.drop_last().contains(g) || gs.last() == g)) by {
            if gs.contains(g) {
                let i = choose|i: int| 0 <= i < gs.len() && gs[i] == g;
                if i < gs.len() - 1 {
                    assert(gs.drop_last()[i] == g);
                }
            }
            if gs.drop_last().contains(g) {
                let i = choose|i: int| 0 <= i < gs.drop_last().len() && gs.drop_last()[i] == g;
                assert(gs[i] == g);
            }
            assert(gs[gs.len() - 1] == gs.last());
        }
        let sub = of_bucket(gs.drop_last(), c);
        if bucket(gs.last()) == c {
            assert(of_bucket(gs, c) == sub.push(gs.last()));
            assert(of_bucket(gs, c).contains(g) <==> (sub.contains(g) || gs.last() == g)) by {
                if sub.contains(g) {
                    let i = choose|i: int| 0 <= i < sub.len() && sub[i] == g;
                    assert(sub.push(gs.last())[i] == g);
                }
                assert(sub.push(gs.last()).last() == gs.last());
                if sub.push(gs.last()).contains(g) {
                    let i = choose|i: int|
                        0 <= i < sub.push(gs.last()).len() && sub.push(gs.last())[i] == g;
                    if i < sub.len() {
                        assert(sub[i] == g);
                    }
                }
            }
        }
    }
}

/// Exhaustive bucketing: each atom belongs to exactly one of the four
/// buckets, and the union of the four buckets, as a set, is the set of all
/// atoms.
pub proof fn lemma_exhaustive_bucketing(gs: Seq<Seq<char>>)
    ensures
        forall|c: Category, g: Seq<char>|
            #[trigger] of_bucket(gs, c).contains(g) <==> (gs.contains(g) && bucket(g) == c),
        of_bucket(gs, Category::Number).to_set()
            + of_bucket(gs, Category::Word).to_set()
            + of_bucket(gs, Category::Alphanumeric).to_set()
            + of_bucket(gs, Category::Punctuation).to_set()
            =~= gs.to_set(),
{
    assert forall|c: Category, g: Seq<char>|
        #[trigger] of_bucket(gs, c).contains(g) <==> (gs.contains(g) && bucket(g) == c) by {
        lemma_bucket_membership(gs, c, g);
    }
    let union = of_bucket(gs, Category::Number).to_set()
        + of_bucket(gs, Category::Word).to_set()
        + of_bucket(gs, Category::Alphanumeric).to_set()
        + of_bucket(gs, Category::Punctuation).to_set();
    assert forall|g: Seq<char>| gs.to_set().contains(g) implies union.contains(g) by {
        assert(gs.contains(g));
        lemma_bucket_membership(gs, bucket(g), g);
        assert(of_bucket(gs, bucket(g)).contains(g));
        assert(of_bucket(gs, bucket(g)).to_set().contains(g));
    }
    assert forall|g: Seq<char>| union.contains(g) implies gs.to_set().contains(g) by {
        if of_bucket(gs, Category::Number).to_set().contains(g) {
            lemma_bucket_membership(gs, Category::Number, g);
        } else if of_bucket(gs, Category::Word).to_set().contains(g) {
            lemma_bucket_membership(gs, Category::Word, g);
        } else if of_bucket(gs, Category::Alphanumeric).to_set().contains(g) {
            lemma_bucket_membership(gs, Category::Alphanumeric, g);
        } else {
            lemma_bucket_membership(gs, Category::Punctuation, g);
        }
    }
}

} // verus!
