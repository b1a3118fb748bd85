//! Identifier normalisation: a fixed substitution table, then every run of
//! non-word characters collapsed to one space.
use inflections::case::{to_constant_case, to_snake_case};
use regex::Regex;
use vstd::prelude::*;
use vstd::string::*;
use crate::text::is_blank_char;

verus! {

/// What `Regex::replace_all` with the pattern `[^\w\d]+` and the replacement
/// `" "` makes of a text.
pub uninterp spec fn non_word_runs_spaced(s: Seq<char>) -> Seq<char>;

/// `s` without its white space characters (the Unicode `White_Space`
/// property).
pub open spec fn whitespace_removed(s: Seq<char>) -> Seq<char> {
    s.filter(|c: char| !is_blank_char(c))
}

/// Relies on regex's `Regex::replace_all`: every maximal run of characters
/// that are neither word characters nor digits becomes a single space.
#[verifier::external_body]
fn space_non_word_runs(s: &str) -> (r: String)
    ensures
        r@ == non_word_runs_spaced(s@),
{
    Regex::new(r"[^\w\d]+").unwrap().replace_all(s, " ").into_owned()
}

/// Relies on regex's `Regex::replace_all`: every maximal run of white space
/// (`\s`, the Unicode `White_Space` property) is removed.
#[verifier::external_body]
fn strip_whitespace_runs(s: &str) -> (r: String)
    ensures
        r@ == whitespace_removed(s@),
{
    Regex::new(r"\s+").unwrap().replace_all(s, "").into_owned()
}

/// The replacement of a single character in the substitution table.
pub open spec fn char_replacement(c: char) -> Option<Seq<char>> {
    match c {
        '*' => Some("asterisk"@),
        '#' => Some("hash"@),
        '&' => Some("and"@),
        'Š' => Some("S"@),
        'š' => Some("s"@),
        'Đ' => Some("Dj"@),
        'đ' => Some("dj"@),
        'Ž' => Some("Z"@),
        'ž' => Some("z"@),
        'Č' => Some("C"@),
        'č' => Some("c"@),
        'Ć' => Some("C"@),
        'ć' => Some("c"@),
        'À' | 'Á' | 'Â' | 'Ã' | 'Ä' | 'Å' | 'Æ' => Some("A"@),
        'Ç' => Some("C"@),
        'È' | 'É' | 'Ê' | 'Ë' => Some("E"@),
        'Ì' | 'Í' | 'Î' | 'Ï' => Some("I"@),
        'Ñ' => Some("N"@),
        'Ò' | 'Ó' | 'Ô' | 'Õ' | 'Ö' | 'Ø' => Some("O"@),
        'Ù' | 'Ú' | 'Û' | 'Ü' => Some("U"@),
        'Ý' => Some("Y"@),
        'Þ' => Some("B"@),
        'ß' => Some("Ss"@),
        'à' | 'á' | 'â' | 'ã' | 'ä' | 'å' | 'æ' => Some("a"@),
        'ç' => Some("c"@),
        'è' | 'é' | 'ê' | 'ë' => Some("e"@),
        'ì' | 'í' | 'î' | 'ï' => Some("i"@),
        'ð' => Some("o"@),
        'ñ' => Some("n"@),
        'ò' | 'ó' | 'ô' | 'õ' | 'ö' | 'ø' => Some("o"@),
        'ù' | 'ú' | 'û' => Some("u"@),
        'ý' | 'ÿ' => Some("y"@),
        'þ' => Some("b"@),
        'Ŕ' => Some("R"@),
        'ŕ' => Some("r"@),
        _ => None,
    }
}

/// The entry of the substitution table that matches at the start of `s`, as
/// the number of characters it covers and their replacement.
pub open spec fn table_match(s: Seq<char>) -> Option<(nat, Seq<char>)> {
    if s.len() >= 4 && s[0] == 'U' && s[1] == '.' && s[2] == 'S' && s[3] == '.' {
        Some((4, "US"@))
    } else if s.len() >= 3 && s[0] == '1' && s[1] == 's' && s[2] == 't' {
        Some((3, "first"@))
    } else if s.len() >= 3 && s[0] == '2' && s[1] == 'n' && s[2] == 'd' {
        Some((3, "second"@))
    } else if s.len() >= 3 && s[0] == '3' && s[1] == 'r' && s[2] == 'd' {
        Some((3, "third"@))
    } else if s.len() >= 1 && char_replacement(s[0]) is Some {
        Some((1, char_replacement(s[0])->0))
    } else {
        None
    }
}

/// `s` with every entry of the substitution table replaced, scanning from
/// the left.
pub open spec fn substituted(s: Seq<char>) -> Seq<char>
    decreases s.len(),
{
    if s.len() == 0 {
        Seq::empty()
    } else {
        match table_match(s) {
            Some((n, rep)) => rep + substituted(s.skip(n as int)),
            None => seq![s[0]] + substituted(s.skip(1)),
        }
    }
}

/// The normalised form of a display name, before case conversion.
pub open spec fn cleaned(s: Seq<char>) -> Seq<char> {
    non_word_runs_spaced(substituted(s))
}

fn replacement_of(c: char) -> (r: Option<&'static str>)
    ensures
        r is Some == char_replacement(c) is Some,
        r is Some ==> r->0@ == char_replacement(c)->0,
{
    match c {
        '*' => Some("asterisk"),
        '#' => Some("hash"),
        '&' => Some("and"),
        'Š' => Some("S"),
        'š' => Some("s"),
        'Đ' => Some("Dj"),
        'đ' => Some("dj"),
        'Ž' => Some("Z"),
        'ž' => Some("z"),
        'Č' => Some("C"),
        'č' => Some("c"),
        'Ć' => Some("C"),
        'ć' => Some("c"),
        'À' | 'Á' | 'Â' | 'Ã' | 'Ä' | 'Å' | 'Æ' => Some("A"),
        'Ç' => Some("C"),
        'È' | 'É' | 'Ê' | 'Ë' => Some("E"),
        'Ì' | 'Í' | 'Î' | 'Ï' => Some("I"),
        'Ñ' => Some("N"),
        'Ò' | 'Ó' | 'Ô' | 'Õ' | 'Ö' | 'Ø' => Some("O"),
        'Ù' | 'Ú' | 'Û' | 'Ü' => Some("U"),
        'Ý' => Some("Y"),
        'Þ' => Some("B"),
        'ß' => Some("Ss"),
        'à' | 'á' | 'â' | 'ã' | 'ä' | 'å' | 'æ' => Some("a"),
        'ç' => Some("c"),
        'è' | 'é' | 'ê' | 'ë' => Some("e"),
        'ì' | 'í' | 'î' | 'ï' => Some("i"),
        'ð' => Some("o"),
        'ñ' => Some("n"),
        'ò' | 'ó' | 'ô' | 'õ' | 'ö' | 'ø' => Some("o"),
        'ù' | 'ú' | 'û' => Some("u"),
        'ý' | 'ÿ' => Some("y"),
        'þ' => Some("b"),
        'Ŕ' => Some("R"),
        'ŕ' => Some("r"),
        _ => None,
    }
}

/// Applies the substitution table to a text.
pub fn substitute(s: &str) -> (r: String)
    ensures
        r@ == substituted(s@),
{
    let n = s.unicode_len();
    let mut out = String::new();
    let mut i: usize = 0;
    proof {
        assert(s@.skip(0) =~= s@);
        assert(out@ + substituted(s@) =~= substituted(s@));
    }
    while i < n
        invariant
            n == s@.len(),
            i <= n,
            out@ + substituted(s@.skip(i as int)) == substituted(s@),
        decreases n - i,
    {
        let rest = Ghost(s@.skip(i as int));
        let c = s.get_char(i);
        let mut step: usize = 1;
        if n - i >= 4 && c == 'U' && s.get_char(i + 1) == '.' && s.get_char(i + 2) == 'S'
            && s.get_char(i + 3) == '.' {
            out.append("US");
            step = 4;
        } else if n - i >= 3 && c == '1' && s.get_char(i + 1) == 's' && s.get_char(i + 2) == 't' {
            out.append("first");
            step = 3;
        } else if n - i >= 3 && c == '2' && s.get_char(i + 1) == 'n' && s.get_char(i + 2) == 'd' {
            out.append("second");
            step = 3;
        } else if n - i >= 3 && c == '3' && s.get_char(i + 1) == 'r' && s.get_char(i + 2) == 'd' {
            out.append("third");
            step = 3;
        } else {
            match replacement_of(c) {
                Some(rep) => out.append(rep),
                None => out.append(s.substring_char(i, i + 1)),
            }
        }
        proof {
            assert(rest@.skip(step as int) =~= s@.skip(i + step));
            assert(s@.subrange(i as int, i + 1) =~= seq![rest@[0]]);
        }
        i = i + step;
    }
    proof {
        assert(s@.skip(n as int) =~= Seq::<char>::empty());
        assert(out@ + Seq::<char>::empty() =~= out@);
    }
    out
}

/// Normalises a display name: the substitution table, then every run of
/// non-word characters replaced by a single space.
pub fn clean(inp: String) -> (r: String)
    ensures
        r@ == cleaned(inp@),
{
    let sub = substitute(inp.as_str());
    space_non_word_runs(sub.as_str())
}

/// Removes every run of white space.
pub fn remove_spaces(inp: String) -> (r: String)
    ensures
        r@ == whitespace_removed(inp@),
{
    strip_whitespace_runs(inp.as_str())
}

/// The alias form of a token: the token between two colons.
pub fn make_alias(inp: String) -> (r: String)
    ensures
        r@ == seq![':'] + inp@ + seq![':'],
{
    let mut out = String::from_str(":");
    out.append(inp.as_str());
    out.append(":");
    proof {
        reveal_strlit(":");
        assert(out@ =~= seq![':'] + inp@ + seq![':']);
    }
    out
}

/// What `inflections::case::to_constant_case` makes of a text.
pub uninterp spec fn constant_case_of(s: Seq<char>) -> Seq<char>;

/// What `inflections::case::to_snake_case` makes of a text.
pub uninterp spec fn snake_case_of(s: Seq<char>) -> Seq<char>;

/// Relies on inflections' `to_constant_case`: the words of the text in
/// upper case, joined by underscores.
#[verifier::external_body]
fn constant_case(s: &str) -> (r: String)
    ensures
        r@ == constant_case_of(s@),
{
    to_constant_case(s)
}

/// Relies on inflections' `to_snake_case`: the words of the text in lower
/// case, joined by underscores.
#[verifier::external_body]
fn snake_case(s: &str) -> (r: String)
    ensures
        r@ == snake_case_of(s@),
{
    to_snake_case(s)
}

/// The constant identifier derived from a display name.
pub open spec fn identifier_for(name: Seq<char>) -> Seq<char> {
    constant_case_of(cleaned(name))
}

/// The primary alias of an identifier: its snake-case form without white
/// space, between colons.
pub open spec fn primary_alias_for(identifier: Seq<char>) -> Seq<char> {
    seq![':'] + whitespace_removed(snake_case_of(identifier)) + seq![':']
}

/// Derives the constant identifier of a display name: normalised, then in
/// constant case.
pub fn identifier(name: &str) -> (r: String)
    ensures
        r@ == identifier_for(name@),
{
    let c = clean(String::from_str(name));
    constant_case(c.as_str())
}

/// Derives the primary alias of an identifier.
pub fn primary_alias(identifier: &str) -> (r: String)
    ensures
        r@ == primary_alias_for(identifier@),
{
    make_alias(remove_spaces(snake_case(identifier)))
}

} // verus!
