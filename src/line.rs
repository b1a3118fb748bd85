//! Classification of the registry's lines and decomposition of a display
//! name into a base name and a modifier combination.
use crate::emoji::{Combo, NONE};
use crate::text::{
    ends_with, find_char, first_index, has_prefix, has_suffix, same_text, split_commas, split_trimmed, starts_with,
    trim_range, trimmed,
};
use vstd::prelude::*;
use vstd::string::*;

verus! {

/// A modifier token of a display name's qualifier list.
#[derive(Clone, Copy, Debug, PartialEq, Eq, Structural)]
pub enum Token {
    /// A skin tone.
    Tone(u8),
    /// An adult: the first person slot.
    Adult(u8),
    /// A child: the second person slot.
    Child(u8),
    /// Shaped like a skin tone, but none of the known ones.
    UnknownModifier,
    /// Not a modifier: the qualifier belongs to the name.
    Other,
}

/// The common ending of the skin tone tokens.
pub const TONE_SUFFIX: &'static str = "skin tone";

pub open spec fn token_of(t: Seq<char>) -> Token {
    if t == "light skin tone"@ {
        Token::Tone(1)
    } else if t == "medium-light skin tone"@ {
        Token::Tone(2)
    } else if t == "medium skin tone"@ {
        Token::Tone(3)
    } else if t == "medium-dark skin tone"@ {
        Token::Tone(4)
    } else if t == "dark skin tone"@ {
        Token::Tone(5)
    } else if t == "man"@ {
        Token::Adult(1)
    } else if t == "woman"@ {
        Token::Adult(2)
    } else if t == "person"@ {
        Token::Adult(3)
    } else if t == "boy"@ {
        Token::Child(1)
    } else if t == "girl"@ {
        Token::Child(2)
    } else if ends_with(t, TONE_SUFFIX@) {
        Token::UnknownModifier
    } else {
        Token::Other
    }
}

/// The pair made of two persons of one slot: two males, two females, or
/// mixed.
pub open spec fn pair_code(a: u8, b: u8) -> u8 {
    if a == 1 && b == 1 {
        1
    } else if a == 2 && b == 2 {
        2
    } else {
        3
    }
}

/// Adds one token to a combination: a skin tone where none is set yet; an
/// adult as the gender of the first slot, or with a gender already there as
/// the pair of the first slot; a child likewise in the second slot. Adults
/// come before children.
pub open spec fn add_token(c: Combo, t: Token) -> Option<Combo> {
    match t {
        Token::Tone(k) => if c.tone != NONE {
            None
        } else {
            Some(Combo { tone: k, ..c })
        },
        Token::Adult(p) => if c.pair != NONE || c.child_gender != NONE || c.child_pair != NONE {
            None
        } else if c.gender == NONE {
            Some(Combo { gender: p, ..c })
        } else {
            Some(Combo { gender: NONE, pair: pair_code(c.gender, p), ..c })
        },
        Token::Child(k) => if c.child_pair != NONE {
            None
        } else if c.child_gender == NONE {
            Some(Combo { child_gender: k, ..c })
        } else {
            Some(Combo { child_gender: NONE, child_pair: pair_code(c.child_gender, k), ..c })
        },
        _ => None,
    }
}

/// The combination that a list of tokens composes, if they fit the axes.
pub open spec fn compose(toks: Seq<Seq<char>>) -> Option<Combo>
    decreases toks.len(),
{
    if toks.len() == 0 {
        Some(Combo { tone: NONE, gender: NONE, pair: NONE, child_gender: NONE, child_pair: NONE })
    } else {
        match compose(toks.drop_last()) {
            Some(c) => add_token(c, token_of(toks.last())),
            None => None,
        }
    }
}

pub open spec fn qualifiers(name: Seq<char>, colon: int) -> Seq<Seq<char>> {
    split_commas(name.subrange(colon + 1, name.len() as int)).map_values(|t: Seq<char>| trimmed(t))
}

/// The base name and combination of a display name. `None` where a
/// qualifier is shaped like a modifier but unknown, or where the modifiers
/// do not fit the axes. A name with a qualifier that is no modifier at all
/// is a base name of its own.
pub open spec fn name_parts(name: Seq<char>) -> Option<(Seq<char>, Combo)> {
    match first_index(name, ':') {
        None => Some((name, Combo { tone: NONE, gender: NONE, pair: NONE, child_gender: NONE, child_pair: NONE })),
        Some(i) => {
            let toks = qualifiers(name, i);
            if exists|k: int| 0 <= k < toks.len() && token_of(#[trigger] toks[k]) is UnknownModifier {
                None
            } else if exists|k: int| 0 <= k < toks.len() && token_of(#[trigger] toks[k]) is Other {
                Some((name, Combo { tone: NONE, gender: NONE, pair: NONE, child_gender: NONE, child_pair: NONE }))
            } else {
                match compose(toks) {
                    Some(c) => Some((trimmed(name.subrange(0, i)), c)),
                    None => None,
                }
            }
        },
    }
}

fn token(t: &str) -> (r: Token)
    ensures
        r == token_of(t@),
{
    if same_text(t, "light skin tone") {
        Token::Tone(1)
    } else if same_text(t, "medium-light skin tone") {
        Token::Tone(2)
    } else if same_text(t, "medium skin tone") {
        Token::Tone(3)
    } else if same_text(t, "medium-dark skin tone") {
        Token::Tone(4)
    } else if same_text(t, "dark skin tone") {
        Token::Tone(5)
    } else if same_text(t, "man") {
        Token::Adult(1)
    } else if same_text(t, "woman") {
        Token::Adult(2)
    } else if same_text(t, "person") {
        Token::Adult(3)
    } else if same_text(t, "boy") {
        Token::Child(1)
    } else if same_text(t, "girl") {
        Token::Child(2)
    } else if has_suffix(t, TONE_SUFFIX) {
        Token::UnknownModifier
    } else {
        Token::Other
    }
}

fn apply_token(c: Combo, t: Token) -> (r: Option<Combo>)
    ensures
        r == add_token(c, t),
{
    match t {
        Token::Tone(k) => if c.tone != NONE {
            None
        } else {
            Some(Combo { tone: k, ..c })
        },
        Token::Adult(p) => if c.pair != NONE || c.child_gender != NONE || c.child_pair != NONE {
            None
        } else if c.gender == NONE {
            Some(Combo { gender: p, ..c })
        } else {
            Some(Combo { gender: NONE, pair: pair_of(c.gender, p), ..c })
        },
        Token::Child(k) => if c.child_pair != NONE {
            None
        } else if c.child_gender == NONE {
            Some(Combo { child_gender: k, ..c })
        } else {
            Some(Combo { child_gender: NONE, child_pair: pair_of(c.child_gender, k), ..c })
        },
        _ => None,
    }
}

fn pair_of(a: u8, b: u8) -> (r: u8)
    ensures
        r == pair_code(a, b),
{
    if a == 1 && b == 1 {
        1
    } else if a == 2 && b == 2 {
        2
    } else {
        3
    }
}

/// Splits a display name into its base name and modifier combination;
/// `None` where the qualifiers are modifier tokens that do not fit the axes.
pub fn split_name(name: &str) -> (r: Option<(String, Combo)>)
    ensures
        match r {
            Some((b, c)) => name_parts(name@) == Some((b@, c)),
            None => name_parts(name@) is None,
        },
{
    let unmodified = Combo::unmodified();
    let n = name.unicode_len();
    proof {
        assert(name@.subrange(0, n as int) =~= name@);
    }
    match find_char(name, ':', 0) {
        None => Some((String::from_str(name), unmodified)),
        Some(i) => {
            let toks = split_trimmed(name, i + 1);
            let ghost spec_toks = qualifiers(name@, i as int);
            assert(toks@.len() == spec_toks.len());
            let mut kinds: Vec<Token> = Vec::new();
            let mut k: usize = 0;
            while k < toks.len()
                invariant
                    k <= toks@.len(),
                    toks@.len() == spec_toks.len(),
                    forall|j: int| 0 <= j < toks@.len() ==> (#[trigger] toks@[j])@ == spec_toks[j],
                    kinds@.len() == k,
                    forall|j: int| 0 <= j < k ==> kinds@[j] == token_of(#[trigger] spec_toks[j]),
                decreases toks@.len() - k,
            {
                let t = token(toks[k].as_str());
                kinds.push(t);
                k = k + 1;
            }
            let mut other = false;
            let mut unknown = false;
            let mut k: usize = 0;
            while k < kinds.len()
                invariant
                    k <= kinds@.len(),
                    kinds@.len() == spec_toks.len(),
                    forall|j: int| 0 <= j < kinds@.len() ==> kinds@[j] == token_of(#[trigger] spec_toks[j]),
                    other == exists|j: int| 0 <= j < k && token_of(#[trigger] spec_toks[j]) is Other,
                    unknown == exists|j: int| 0 <= j < k && token_of(#[trigger] spec_toks[j]) is UnknownModifier,
                decreases kinds@.len() - k,
            {
                assert(kinds@[k as int] == token_of(spec_toks[k as int]));
                match kinds[k] {
                    Token::Other => {
                        other = true;
                    },
                    Token::UnknownModifier => {
                        unknown = true;
                    },
                    _ => {},
                }
                k = k + 1;
            }
            if unknown {
                return None;
            }
            if other {
                return Some((String::from_str(name), unmodified));
            }
            let mut acc: Option<Combo> = Some(unmodified);
            let mut k: usize = 0;
            proof {
                assert(spec_toks.subrange(0, 0) =~= Seq::<Seq<char>>::empty());
            }
            while k < kinds.len()
                invariant
                    k <= kinds@.len(),
                    kinds@.len() == spec_toks.len(),
                    forall|j: int| 0 <= j < kinds@.len() ==> kinds@[j] == token_of(#[trigger] spec_toks[j]),
                    acc == compose(spec_toks.subrange(0, k as int)),
                decreases kinds@.len() - k,
            {
                proof {
                    assert(spec_toks.subrange(0, k + 1).drop_last() =~= spec_toks.subrange(0, k as int));
                }
                acc = match acc {
                    Some(c) => apply_token(c, kinds[k]),
                    None => None,
                };
                k = k + 1;
            }
            assert(spec_toks.subrange(0, kinds@.len() as int) =~= spec_toks);
            match acc {
                Some(c) => Some((trim_range(name, 0, i), c)),
                None => None,
            }
        },
    }
}

/// The marker that opens a group.
pub const GROUP_MARK: &'static str = "# group:";

/// The marker that opens a subgroup.
pub const SUBGROUP_MARK: &'static str = "# subgroup:";

/// One line of the registry, classified.
pub enum Line {
    Blank,
    Group(String),
    Subgroup(String),
    Comment,
    Data { grapheme: String, name: String },
    Malformed,
}

pub enum LineView {
    Blank,
    Group(Seq<char>),
    Subgroup(Seq<char>),
    Comment,
    Data { grapheme: Seq<char>, name: Seq<char> },
    Malformed,
}

impl View for Line {
    type V = LineView;

    open spec fn view(&self) -> LineView {
        match self {
            Line::Blank => LineView::Blank,
            Line::Group(n) => LineView::Group(n@),
            Line::Subgroup(n) => LineView::Subgroup(n@),
            Line::Comment => LineView::Comment,
            Line::Data { grapheme, name } => LineView::Data { grapheme: grapheme@, name: name@ },
            Line::Malformed => LineView::Malformed,
        }
    }
}

pub open spec fn is_digit(c: char) -> bool {
    '0' <= c <= '9'
}

/// The display name that follows the grapheme: the version token (`E` and
/// a digit) that may lead it is dropped.
pub open spec fn version_stripped(a: Seq<char>) -> Seq<char> {
    if a.len() >= 2 && a[0] == 'E' && is_digit(a[1]) {
        match first_index(a, ' ') {
            Some(v) => trimmed(a.subrange(v + 1, a.len() as int)),
            None => Seq::empty(),
        }
    } else {
        a
    }
}

/// The grapheme and display name of a data record
/// `codepoints ; status # grapheme version name`.
pub open spec fn data_fields(t: Seq<char>) -> Option<(Seq<char>, Seq<char>)> {
    match (first_index(t, ';'), first_index(t, '#')) {
        (Some(semi), Some(hash)) => if semi < hash {
            let rest = trimmed(t.subrange(hash + 1, t.len() as int));
            match first_index(rest, ' ') {
                Some(sp) => {
                    let name = version_stripped(trimmed(rest.subrange(sp + 1, rest.len() as int)));
                    if sp > 0 && name.len() > 0 {
                        Some((rest.subrange(0, sp), name))
                    } else {
                        None
                    }
                },
                None => None,
            }
        } else {
            None
        },
        _ => None,
    }
}

/// What a line of the registry is, tested in this order: blank, group
/// marker, subgroup marker, comment, data record.
pub open spec fn classify(line: Seq<char>) -> LineView {
    let t = trimmed(line);
    if t.len() == 0 {
        LineView::Blank
    } else if starts_with(t, GROUP_MARK@) {
        LineView::Group(trimmed(t.subrange(GROUP_MARK@.len() as int, t.len() as int)))
    } else if starts_with(t, SUBGROUP_MARK@) {
        LineView::Subgroup(trimmed(t.subrange(SUBGROUP_MARK@.len() as int, t.len() as int)))
    } else if t[0] == '#' {
        LineView::Comment
    } else {
        match data_fields(t) {
            Some((g, n)) => LineView::Data { grapheme: g, name: n },
            None => LineView::Malformed,
        }
    }
}

fn strip_version(a: String) -> (r: String)
    ensures
        r@ == version_stripped(a@),
{
    let n = a.unicode_len();
    if n >= 2 && a.as_str().get_char(0) == 'E' && '0' <= a.as_str().get_char(1)
        && a.as_str().get_char(1) <= '9' {
        proof {
            assert(a@.subrange(0, n as int) =~= a@);
        }
        match find_char(a.as_str(), ' ', 0) {
            Some(v) => trim_range(a.as_str(), v + 1, n),
            None => String::new(),
        }
    } else {
        a
    }
}

fn fields(t: &str) -> (r: Option<(String, String)>)
    ensures
        match r {
            Some((g, n)) => data_fields(t@) == Some((g@, n@)),
            None => data_fields(t@) is None,
        },
{
    let n = t.unicode_len();
    proof {
        assert(t@.subrange(0, n as int) =~= t@);
    }
    let semi = find_char(t, ';', 0);
    let hash = find_char(t, '#', 0);
    match (semi, hash) {
        (Some(si), Some(hi)) => {
            if si >= hi {
                return None;
            }
            let rest = trim_range(t, hi + 1, n);
            let rn = rest.unicode_len();
            proof {
                assert(rest@.subrange(0, rn as int) =~= rest@);
            }
            match find_char(rest.as_str(), ' ', 0) {
                Some(sp) => {
                    let name = strip_version(trim_range(rest.as_str(), sp + 1, rn));
                    if sp > 0 && name.unicode_len() > 0 {
                        Some((String::from_str(rest.as_str().substring_char(0, sp)), name))
                    } else {
                        None
                    }
                },
                None => None,
            }
        },
        _ => None,
    }
}

/// Classifies one line of the registry.
pub fn classify_line(line: &str) -> (r: Line)
    ensures
        r@ == classify(line@),
{
    let n = line.unicode_len();
    let t = trim_range(line, 0, n);
    proof {
        assert(line@.subrange(0, n as int) =~= line@);
    }
    let tn = t.unicode_len();
    if tn == 0 {
        Line::Blank
    } else if has_prefix(t.as_str(), GROUP_MARK) {
        Line::Group(trim_range(t.as_str(), GROUP_MARK.unicode_len(), tn))
    } else if has_prefix(t.as_str(), SUBGROUP_MARK) {
        Line::Subgroup(trim_range(t.as_str(), SUBGROUP_MARK.unicode_len(), tn))
    } else if t.as_str().get_char(0) == '#' {
        Line::Comment
    } else {
        match fields(t.as_str()) {
            Some((g, nm)) => Line::Data { grapheme: g, name: nm },
            None => Line::Malformed,
        }
    }
}

} // verus!
