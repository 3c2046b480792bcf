//! The regular-expression capability of the buffer: global replacement,
//! pattern escaping, and the word matches used for word lists and
//! word-before-cursor queries. The regex engine's results are functions of
//! their text arguments alone, so they are given names here; the logic above
//! them is verified against those names.

use vstd::prelude::*;

verus! {

/// Whether the pattern engine accepts `pattern`: compilation is a function
/// of the pattern text alone.
pub uninterp spec fn pattern_ok(pattern: Seq<char>) -> bool;

/// What replacing every match of `pattern` in `hay` by `rep` (with capture
/// expansion) returns.
pub uninterp spec fn regex_replaced(pattern: Seq<char>, hay: Seq<char>, rep: Seq<char>) -> Seq<
    char,
>;

/// Relies on `regex::Regex::new` and `Regex::replacen` with limit 0 (which
/// replaces every match, as `replace_all` does): compilation succeeds exactly
/// when the engine accepts the pattern, and the replacement is a function of
/// pattern, haystack and replacement alone. `Err` carries the engine's
/// message for a rejected pattern.
#[verifier::external_body]
pub(crate) fn regex_replace_all(pattern: &str, hay: &str, rep: &str) -> (res: Result<
    String,
    String,
>)
    ensures
        res is Ok <==> pattern_ok(pattern@),
        match res {
            Ok(s) => s@ == regex_replaced(pattern@, hay@, rep@),
            Err(_) => true,
        },
{
    match regex::Regex::new(pattern) {
        Ok(re) => Ok(re.replacen(hay, 0, rep).to_string()),
        Err(e) => Err(e.to_string()),
    }
}

/// What escaping every regex meta character of `s` returns.
pub uninterp spec fn regex_escaped(s: Seq<char>) -> Seq<char>;

/// Relies on `regex::escape`: returns the pattern with every meta character
/// escaped, a function of the input alone.
#[verifier::external_body]
pub(crate) fn regex_escape(pattern: &str) -> (res: String)
    ensures
        res@ == regex_escaped(pattern@),
{
    regex::escape(pattern)
}

/// The word matches of a text: for each match of a word pattern (a maximal
/// run of word characters at a word boundary), its start byte offset and its
/// text, in match order.
pub uninterp spec fn word_match_list(s: Seq<char>) -> Seq<(int, Seq<char>)>;

/// The views of a list of word matches.
pub open spec fn match_views(s: Seq<(usize, String)>) -> Seq<(int, Seq<char>)> {
    s.map_values(|m: (usize, String)| (m.0 as int, m.1@))
}

/// Relies on `regex::Regex::find_iter` with the fixed word pattern `\b\w+`:
/// the matches are a function of the text alone; each is returned as its
/// start byte offset and its text.
#[verifier::external_body]
pub(crate) fn find_word_matches(text: &str) -> (res: Vec<(usize, String)>)
    ensures
        match_views(res@) == word_match_list(text@),
{
    let re = regex::Regex::new(r"\b\w+").unwrap();
    re.find_iter(text).map(|m| (m.start(), m.as_str().to_string())).collect()
}

/// The texts of the word matches, in order.
pub open spec fn word_texts(s: Seq<char>) -> Seq<Seq<char>> {
    word_match_list(s).map_values(|m: (int, Seq<char>)| m.1)
}

/// `s` with every element that already occurred earlier removed: the first
/// occurrences, in order.
pub open spec fn dedup_first(s: Seq<Seq<char>>) -> Seq<Seq<char>>
    decreases s.len(),
{
    if s.len() == 0 {
        Seq::<Seq<char>>::empty()
    } else {
        let rest = dedup_first(s.drop_last());
        if rest.contains(s.last()) {
            rest
        } else {
            rest.push(s.last())
        }
    }
}

} // verus!
