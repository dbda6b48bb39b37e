//! The two-pass lexical analyzer for URL-shaped strings.

use vstd::prelude::*;
use vstd::string::StrSliceExecFns;
use crate::model::{
    count_slashes, directories_of, filename_of, granules, granules_of_all, host_of, is_protocol,
    lemma_granules_of_all_wf, lemma_split_count, lemma_split_nonempty, lemma_trigger_pos,
    narrow_triggers, of_bucket, protocol_of, split_on_slash, suffix_head, suffix_of, suffix_tail,
    suffix_trigger_pos, url_like, Category,
};
use crate::str_checker::{
    alnum_char, alpha_char, is_alnum_char, is_alpha_char, is_alphanumeric, is_number, is_word,
};

verus! {

/// The fully computed decomposition of one input string. Every field
/// borrows from the input; the structural fields are set only when the
/// input is URL-shaped, while the granular fields are filled for any input.
pub struct TokensResult<'a> {
    pub is_valid_url: bool,
    pub protocol: Option<&'a str>,
    pub host: Option<&'a str>,
    pub directories: Vec<&'a str>,
    pub filename: Option<&'a str>,
    pub suffix: Option<&'a str>,
    pub words: Vec<&'a str>,
    pub numbers: Vec<&'a str>,
    pub alphanumeric: Vec<&'a str>,
    pub punctuations: Vec<&'a str>,
    pub tokens: Vec<&'a str>,
    pub granular_tokens: Vec<&'a str>,
}

/// Splits the input at every `/` character, producing one segment per run
/// between delimiters, including empty segments and a trailing segment.
pub fn tokenize<'a>(input_str: &'a str) -> (tokens: Vec<&'a str>)
    ensures
        tokens.deep_view() == split_on_slash(input_str@),
        tokens.len() == count_slashes(input_str@) + 1,
{
    let n = input_str.unicode_len();
    let mut tokens: Vec<&'a str> = Vec::new();
    let mut start_index: usize = 0;
    let mut index: usize = 0;
    proof {
        assert(tokens.deep_view().push(input_str@.subrange(0, 0))
            =~~= split_on_slash(input_str@.subrange(0, 0)));
    }
    while index < n
        invariant
            start_index <= index <= n,
            n == input_str@.len(),
            tokens.deep_view().push(input_str@.subrange(start_index as int, index as int))
                == split_on_slash(input_str@.subrange(0, index as int)),
        decreases n - index,
    {
        let ghost prefix = input_str@.subrange(0, index as int);
        let ghost prefix2 = input_str@.subrange(0, index as int + 1);
        let c = input_str.get_char(index);
        proof {
            assert(prefix2.drop_last() =~= prefix);
            assert(prefix2.last() == input_str@[index as int]);
        }
        if c == '/' {
            let extracted: &'a str = input_str.substring_char(start_index, index);
            let ghost old_dv = tokens.deep_view();
            tokens.push(extracted);
            proof {
                assert(tokens.deep_view() =~= old_dv.push(extracted@));
                assert(tokens.deep_view().push(
                    input_str@.subrange(index as int + 1, index as int + 1))
                    =~~= split_on_slash(prefix2));
            }
            start_index = index + 1;
        } else {
            proof {
                let rest = split_on_slash(prefix);
                lemma_split_nonempty(prefix);
                assert(rest.last() == input_str@.subrange(start_index as int, index as int));
                assert(split_on_slash(prefix2)
                    == rest.update(rest.len() - 1, rest.last().push(input_str@[index as int])));
                assert(tokens.deep_view().push(
                    input_str@.subrange(start_index as int, index as int + 1))
                    =~= split_on_slash(prefix2)) by {
                    assert(rest.last().push(input_str@[index as int])
                        =~= input_str@.subrange(start_index as int, index as int + 1));
                }
            }
        }
        index += 1;
    }
    let last_part: &'a str = input_str.substring_char(start_index, n);
    let ghost old_dv = tokens.deep_view();
    tokens.push(last_part);
    proof {
        assert(input_str@.subrange(0, n as int) =~= input_str@);
        assert(tokens.deep_view() =~= old_dv.push(last_part@));
        lemma_split_count(input_str@);
    }
    tokens
}

/// True iff the segment is non-empty, every character but the last is an
/// alphabetic letter, and the last character is `:`. An empty segment is
/// simply not a protocol; the check never fails.
pub fn is_valid_protocol(protocol_str: &str) -> (r: bool)
    ensures
        r == is_protocol(protocol_str@),
{
    let n = protocol_str.unicode_len();
    if n == 0 {
        return false;
    }
    let end_index: usize = n - 1;
    let mut i: usize = 0;
    while i < n
        invariant
            i <= n,
            0 < n == protocol_str@.len(),
            end_index == n - 1,
            forall|j: int| 0 <= j < i && j < n - 1 ==> alpha_char(protocol_str@[j]),
            i > end_index ==> protocol_str@[n - 1] == ':',
        decreases n - i,
    {
        let c = protocol_str.get_char(i);
        if i != end_index && !is_alpha_char(c) {
            return false;
        }
        if i == end_index && c != ':' {
            return false;
        }
        i += 1;
    }
    true
}

/// True iff `c` occurs in `chars`.
fn contains_char(chars: &[char], c: char) -> (r: bool)
    ensures
        r == chars@.contains(c),
{
    let n = chars.len();
    let mut i: usize = 0;
    while i < n
        invariant
            i <= n == chars@.len(),
            forall|j: int| 0 <= j < i ==> chars@[j] != c,
        decreases n - i,
    {
        if chars[i] == c {
            return true;
        }
        i += 1;
    }
    false
}

/// Splits a segment at the first character that occurs in `triggers`: the
/// part before it and the part after it, the trigger itself dropped. When
/// no trigger occurs, returns the whole segment and an empty remainder.
pub fn split_suffix_with<'a>(mixed: &'a str, triggers: &[char]) -> (r: (&'a str, &'a str))
    ensures
        r.0@ == suffix_head(mixed@, triggers@),
        r.1@ == suffix_tail(mixed@, triggers@),
{
    let n = mixed.unicode_len();
    let mut i: usize = 0;
    proof {
        lemma_trigger_pos(mixed@, triggers@);
    }
    while i < n
        invariant
            i <= n == mixed@.len(),
            forall|j: int| 0 <= j < i ==> !triggers@.contains(mixed@[j]),
            0 <= suffix_trigger_pos(mixed@, triggers@) <= n,
            forall|j: int| 0 <= j < suffix_trigger_pos(mixed@, triggers@)
                ==> !triggers@.contains(mixed@[j]),
            suffix_trigger_pos(mixed@, triggers@) < n
                ==> triggers@.contains(mixed@[suffix_trigger_pos(mixed@, triggers@)]),
        decreases n - i,
    {
        let c = mixed.get_char(i);
        if contains_char(triggers, c) {
            proof {
                let p = suffix_trigger_pos(mixed@, triggers@);
                assert(p == i) by {
                    if p < i {
                        assert(!triggers@.contains(mixed@[p]));
                    }
                    if p > i {
                        assert(!triggers@.contains(mixed@[i as int]));
                    }
                }
            }
            let first_part: &'a str = mixed.substring_char(0, i);
            let suffix: &'a str = mixed.substring_char(i + 1, n);
            return (first_part, suffix);
        }
        i += 1;
    }
    proof {
        let p = suffix_trigger_pos(mixed@, triggers@);
        assert(p == n) by {
            if p < n {
                assert(!triggers@.contains(mixed@[p]));
            }
        }
        assert(mixed@.subrange(0, n as int) =~= mixed@);
    }
    let empty_part: &'a str = mixed.substring_char(n, n);
    proof {
        assert(empty_part@ =~= Seq::<char>::empty());
    }
    (mixed, empty_part)
}

/// Re-splits every segment into maximal alphanumeric runs and single
/// punctuation characters, flattened in order across the segments.
pub fn granularize<'a>(tokens: &Vec<&'a str>) -> (out: Vec<&'a str>)
    ensures
        out.deep_view() == granules_of_all(tokens.deep_view()),
{
    let mut out: Vec<&'a str> = Vec::new();
    let mut k: usize = 0;
    proof {
        assert(out.deep_view() =~= granules_of_all(tokens.deep_view().subrange(0, 0)));
    }
    while k < tokens.len()
        invariant
            k <= tokens.len(),
            out.deep_view() == granules_of_all(tokens.deep_view().subrange(0, k as int)),
        decreases tokens.len() - k,
    {
        let token: &'a str = tokens[k];
        let ghost base = out.deep_view();
        let ghost tv = token@;
        proof {
            assert(tokens.deep_view()[k as int] == tv);
        }
        let m = token.unicode_len();
        let mut start_index: usize = 0;
        let mut i: usize = 0;
        proof {
            assert(base + granules(tv.subrange(0, 0)) =~= base);
        }
        while i < m
            invariant
                start_index <= i <= m,
                m == tv.len(),
                tv == token@,
                forall|j: int| start_index <= j < i ==> alnum_char(tv[j]),
                start_index < i ==> out.deep_view().push(
                    tv.subrange(start_index as int, i as int),
                ) == base + granules(tv.subrange(0, i as int)),
                start_index == i ==> out.deep_view() == base + granules(tv.subrange(0, i as int)),
                start_index == i ==> (granules(tv.subrange(0, i as int)).len() == 0
                    || !alnum_char(granules(tv.subrange(0, i as int)).last().last())),
                out.deep_view().len() >= base.len(),
            decreases m - i,
        {
            let ghost prefix = tv.subrange(0, i as int);
            let ghost prefix2 = tv.subrange(0, i as int + 1);
            let ghost rest = granules(prefix);
            proof {
                assert(prefix2.drop_last() =~= prefix);
                assert(prefix2.last() == tv[i as int]);
            }
            let c = token.get_char(i);
            if !is_alnum_char(c) {
                if start_index < i {
                    let before: &'a str = token.substring_char(start_index, i);
                    let ghost old_dv = out.deep_view();
                    out.push(before);
                    proof {
                        assert(out.deep_view() =~= old_dv.push(before@));
                    }
                }
                proof {
                    assert(out.deep_view() == base + rest);
                }
                let punct: &'a str = token.substring_char(i, i + 1);
                let ghost old_dv = out.deep_view();
                out.push(punct);
                proof {
                    assert(out.deep_view() =~= old_dv.push(punct@));
                    assert(granules(prefix2) == rest.push(seq![tv[i as int]]));
                    assert(punct@ =~= seq![tv[i as int]]);
                    assert(out.deep_view() =~~= base + granules(prefix2));
                    assert(granules(prefix2).last() == seq![tv[i as int]]);
                    assert(!alnum_char(granules(prefix2).last().last()));
                }
                start_index = i + 1;
            } else {
                proof {
                    if start_index < i {
                        let sub = tv.subrange(start_index as int, i as int);
                        assert(out.deep_view().push(sub).len() == (base + rest).len());
                        assert(rest.len() >= 1);
                        assert(rest.last() == (base + rest)[base.len() + rest.len() - 1]);
                        assert(out.deep_view().push(sub).last() == sub);
                        assert(rest.last() == sub);
                        assert(alnum_char(sub.last()));
                        assert(granules(prefix2) == rest.update(
                            rest.len() - 1,
                            rest.last().push(tv[i as int]),
                        ));
                        let sub2 = tv.subrange(start_index as int, i as int + 1);
                        assert(sub2 =~= sub.push(tv[i as int]));
                        assert forall|j: int| 0 <= j < out.deep_view().len()
                            implies out.deep_view()[j] == (base + granules(prefix2))[j] by {
                            assert(out.deep_view()[j] == out.deep_view().push(sub)[j]);
                            assert(out.deep_view().push(sub)[j] == (base + rest)[j]);
                            if j >= base.len() {
                                assert((base + rest)[j] == rest[j - base.len()]);
                                assert(j - base.len() < rest.len() - 1);
                                assert((base + granules(prefix2))[j]
                                    == granules(prefix2)[j - base.len()]);
                            }
                        }
                        assert(out.deep_view().push(sub2) =~~= base + granules(prefix2));
                    } else {
                        assert(granules(prefix2) == rest.push(seq![tv[i as int]]));
                        let sub2 = tv.subrange(i as int, i as int + 1);
                        assert(sub2 =~= seq![tv[i as int]]);
                        assert(out.deep_view().push(sub2) =~~= base + granules(prefix2));
                    }
                }
            }
            i += 1;
        }
        if start_index < m {
            let last_part: &'a str = token.substring_char(start_index, m);
            let ghost old_dv = out.deep_view();
            out.push(last_part);
            proof {
                assert(out.deep_view() =~= old_dv.push(last_part@));
            }
        }
        proof {
            assert(tv.subrange(0, m as int) =~= tv);
            assert(out.deep_view() == base + granules(tv));
        }
        k += 1;
        proof {
            let dv = tokens.deep_view();
            assert(dv.subrange(0, k as int).drop_last() =~= dv.subrange(0, k as int - 1));
            assert(dv.subrange(0, k as int).last() == dv[k as int - 1]);
            assert(granules_of_all(dv.subrange(0, k as int))
                == granules_of_all(dv.subrange(0, k as int - 1)) + granules(tv));
        }
    }
    proof {
        assert(tokens.deep_view().subrange(0, tokens.deep_view().len() as int)
            =~= tokens.deep_view());
    }
    out
}

/// Splits a segment into filename and suffix at the first query or
/// fragment marker (`?` or `#`), the marker itself dropped.
pub fn split_suffix<'a>(mixed: &'a str) -> (r: (&'a str, &'a str))
    ensures
        r.0@ == suffix_head(mixed@, narrow_triggers()),
        r.1@ == suffix_tail(mixed@, narrow_triggers()),
{
    let mut triggers: Vec<char> = Vec::new();
    triggers.push('?');
    triggers.push('#');
    proof {
        assert(triggers@ =~= narrow_triggers());
    }
    split_suffix_with(mixed, triggers.as_slice())
}

/// The rendering of one atom's characters: each character quoted, with
/// `", "` after every character but the atom's last.
pub open spec fn chars_list_upto(g: Seq<char>, i: int) -> Seq<char>
    decreases i,
{
    if i <= 0 {
        Seq::<char>::empty()
    } else {
        chars_list_upto(g, i - 1) + "'"@ + seq![g[i - 1]] + "'"@ + (if i - 1 != g.len() - 1 {
            ", "@
        } else {
            Seq::<char>::empty()
        })
    }
}

pub open spec fn chars_list(g: Seq<char>) -> Seq<char> {
    chars_list_upto(g, g.len() as int)
}

/// One line per atom, mapping the atom to its quoted characters.
pub open spec fn render_lines(gs: Seq<Seq<char>>) -> Seq<char>
    decreases gs.len(),
{
    if gs.len() == 0 {
        Seq::<char>::empty()
    } else {
        render_lines(gs.drop_last()) + "\r\n    "@ + gs.last() + " => "@ + chars_list(gs.last())
    }
}

/// The deterministic multi-line rendering of a list of atoms.
pub open spec fn render_granular(gs: Seq<Seq<char>>) -> Seq<char> {
    "["@ + render_lines(gs) + (if gs.len() > 0 {
        "\r\n"@
    } else {
        Seq::<char>::empty()
    }) + "]\r\n"@
}

impl<'a> TokensResult<'a> {
    /// Renders the granular atoms as text, one line per atom, mapping the
    /// atom to its ordered sequence of individual characters.
    pub fn granular(&self) -> (r: String)
        ensures
            r@ == render_granular(self.granular_tokens.deep_view()),
    {
        let ghost gs = self.granular_tokens.deep_view();
        let mut granular_string: String = "[".to_owned();
        let mut has_tokens = false;
        let mut k: usize = 0;
        proof {
            assert("["@ + render_lines(gs.subrange(0, 0)) =~= "["@);
        }
        while k < self.granular_tokens.len()
            invariant
                k <= self.granular_tokens.len(),
                gs == self.granular_tokens.deep_view(),
                granular_string@ == "["@ + render_lines(gs.subrange(0, k as int)),
                has_tokens == (k > 0),
            decreases self.granular_tokens.len() - k,
        {
            let token: &str = self.granular_tokens[k];
            proof {
                assert(self.granular_tokens.deep_view()[k as int] == token@);
                assert(gs.subrange(0, k as int + 1).drop_last() =~= gs.subrange(0, k as int));
                assert(gs.subrange(0, k as int + 1).last() == gs[k as int]);
            }
            granular_string.append("\r\n    ");
            granular_string.append(token);
            granular_string.append(" => ");
            let m = token.unicode_len();
            let ghost pre = granular_string@;
            let mut ci: usize = 0;
            proof {
                assert(pre + chars_list_upto(token@, 0) =~= pre);
            }
            while ci < m
                invariant
                    ci <= m,
                    m == token@.len(),
                    granular_string@ == pre + chars_list_upto(token@, ci as int),
                decreases m - ci,
            {
                granular_string.append("'");
                let one: &str = token.substring_char(ci, ci + 1);
                granular_string.append(one);
                granular_string.append("'");
                if ci != m - 1 {
                    granular_string.append(", ");
                }
                proof {
                    assert(one@ =~= seq![token@[ci as int]]);
                    assert(granular_string@ =~= pre + chars_list_upto(token@, ci as int + 1));
                }
                ci += 1;
            }
            has_tokens = true;
            k += 1;
            proof {
                assert(granular_string@ =~= "["@ + render_lines(gs.subrange(0, k as int)));
            }
        }
        if has_tokens {
            granular_string.append("\r\n");
        }
        granular_string.append("]\r\n");
        proof {
            assert(gs.subrange(0, gs.len() as int) =~= gs);
            assert(granular_string@ =~= render_granular(gs));
        }
        granular_string
    }

    /// Decomposes one input string in two passes: the top-level split on
    /// `/` with the structural classification, then the granular split of
    /// every segment with its bucketing into the four lexical categories.
    pub fn new(input_str: &'a str) -> (result: TokensResult<'a>)
        ensures
            result.tokens.deep_view() == split_on_slash(input_str@),
            result.granular_tokens.deep_view() == granules_of_all(split_on_slash(input_str@)),
            result.is_valid_url == url_like(split_on_slash(input_str@)),
            result.protocol.deep_view() == protocol_of(split_on_slash(input_str@)),
            result.host.deep_view() == host_of(split_on_slash(input_str@)),
            result.directories.deep_view() == directories_of(split_on_slash(input_str@)),
            result.filename.deep_view() == filename_of(split_on_slash(input_str@)),
            result.suffix.deep_view() == suffix_of(split_on_slash(input_str@)),
            result.numbers.deep_view() == of_bucket(
                granules_of_all(split_on_slash(input_str@)),
                Category::Number,
            ),
            result.words.deep_view() == of_bucket(
                granules_of_all(split_on_slash(input_str@)),
                Category::Word,
            ),
            result.alphanumeric.deep_view() == of_bucket(
                granules_of_all(split_on_slash(input_str@)),
                Category::Alphanumeric,
            ),
            result.punctuations.deep_view() == of_bucket(
                granules_of_all(split_on_slash(input_str@)),
                Category::Punctuation,
            ),
    {
        let ghost toks = split_on_slash(input_str@);
        let tokens: Vec<&'a str> = tokenize(input_str);

        // Check if it is a URL for a website: at least protocol, the empty
        // run of `//`, and a host.
        let is_valid_url = tokens.len() >= 3 && is_valid_protocol(tokens[0])
            && !tokens[0].is_empty() && tokens[1].is_empty();
        proof {
            if tokens@.len() >= 3 {
                assert(tokens.deep_view()[0] == tokens@[0]@);
                assert(tokens.deep_view()[1] == tokens@[1]@);
            }
            assert(is_valid_url == url_like(toks));
        }

        let mut protocol: Option<&'a str> = None;
        let mut host: Option<&'a str> = None;
        let mut directories: Vec<&'a str> = Vec::new();
        let mut filename: Option<&'a str> = None;
        let mut suffix: Option<&'a str> = None;

        if is_valid_url {
            let protocol_str: &'a str = tokens[0];
            let plen = protocol_str.unicode_len();
            protocol = Some(protocol_str.substring_char(0, plen - 1));
            proof {
                assert(toks[0].subrange(0, toks[0].len() - 1) =~= toks[0].drop_last());
            }
            host = Some(tokens[2]);
            proof {
                assert(tokens.deep_view()[2] == tokens@[2]@);
            }

            // [protocol:]/[empty]/[host]
            if tokens.len() > 3 {
                let mut idx: usize = 3;
                proof {
                    assert(directories.deep_view() =~= toks.subrange(3, 3));
                }
                while idx < tokens.len() - 1
                    invariant
                        3 <= idx <= tokens.len() - 1,
                        tokens.len() > 3,
                        tokens.deep_view() == toks,
                        directories.deep_view() == toks.subrange(3, idx as int),
                    decreases tokens.len() - idx,
                {
                    let ghost old_dv = directories.deep_view();
                    directories.push(tokens[idx]);
                    proof {
                        assert(directories.deep_view()
                            =~= old_dv.push(tokens.deep_view()[idx as int]));
                        assert(toks.subrange(3, idx as int + 1)
                            =~= toks.subrange(3, idx as int).push(toks[idx as int]));
                    }
                    idx += 1;
                }
                let last_token: &'a str = tokens[tokens.len() - 1];
                proof {
                    assert(tokens.deep_view()[tokens@.len() - 1] == tokens@[tokens@.len() - 1]@);
                }
                let (filename_part, suffix_part) = split_suffix(last_token);
                filename = Some(filename_part);
                suffix = Some(suffix_part);
            } else {
                let host_token: &'a str = tokens[2];
                let (host_part, suffix_part) = split_suffix(host_token);
                host = Some(host_part);
                suffix = Some(suffix_part);
            }
        }

        let granular_tokens: Vec<&'a str> = granularize(&tokens);
        let ghost gs = granules_of_all(toks);

        let mut numbers: Vec<&'a str> = Vec::new();
        let mut words: Vec<&'a str> = Vec::new();
        let mut alphanumeric: Vec<&'a str> = Vec::new();
        let mut punctuations: Vec<&'a str> = Vec::new();
        proof {
            lemma_granules_of_all_wf(toks);
            assert(numbers.deep_view() =~= of_bucket(gs.subrange(0, 0), Category::Number));
            assert(words.deep_view() =~= of_bucket(gs.subrange(0, 0), Category::Word));
            assert(alphanumeric.deep_view()
                =~= of_bucket(gs.subrange(0, 0), Category::Alphanumeric));
            assert(punctuations.deep_view()
                =~= of_bucket(gs.subrange(0, 0), Category::Punctuation));
        }
        let mut gi: usize = 0;
        while gi < granular_tokens.len()
            invariant
                gi <= granular_tokens.len(),
                granular_tokens.deep_view() == gs,
                forall|i: int| 0 <= i < gs.len() ==> #[trigger] gs[i].len() > 0,
                numbers.deep_view() == of_bucket(gs.subrange(0, gi as int), Category::Number),
                words.deep_view() == of_bucket(gs.subrange(0, gi as int), Category::Word),
                alphanumeric.deep_view() == of_bucket(
                    gs.subrange(0, gi as int),
                    Category::Alphanumeric,
                ),
                punctuations.deep_view() == of_bucket(
                    gs.subrange(0, gi as int),
                    Category::Punctuation,
                ),
            decreases granular_tokens.len() - gi,
        {
            let token: &'a str = granular_tokens[gi];
            proof {
                assert(granular_tokens.deep_view()[gi as int] == token@);
                assert(gs.subrange(0, gi as int + 1).drop_last() =~= gs.subrange(0, gi as int));
                assert(gs.subrange(0, gi as int + 1).last() == gs[gi as int]);
            }
            if is_number(token) {
                let ghost old_dv = numbers.deep_view();
                numbers.push(token);
                proof {
                    assert(numbers.deep_view() =~= old_dv.push(token@));
                }
            } else if is_word(token) {
                let ghost old_dv = words.deep_view();
                words.push(token);
                proof {
                    assert(words.deep_view() =~= old_dv.push(token@));
                }
            } else if is_alphanumeric(token) {
                let ghost old_dv = alphanumeric.deep_view();
                alphanumeric.push(token);
                proof {
                    assert(alphanumeric.deep_view() =~= old_dv.push(token@));
                }
            // Discard empty tokens.
            } else if !token.is_empty() {
                let ghost old_dv = punctuations.deep_view();
                punctuations.push(token);
                proof {
                    assert(punctuations.deep_view() =~= old_dv.push(token@));
                }
            }
            gi += 1;
        }
        proof {
            assert(gs.subrange(0, gs.len() as int) =~= gs);
        }

        TokensResult {
            is_valid_url,
            protocol,
            host,
            directories,
            filename,
            suffix,
            words,
            numbers,
            alphanumeric,
            punctuations,
            tokens,
            granular_tokens,
        }
    }
}

} // verus!
