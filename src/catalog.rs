//! The catalog of groups, subgroups and emoji, and the parser that builds
//! it from the registry's lines: a state machine over the cursor states no
//! group, in a group, in a subgroup.
use crate::emoji::{variants_wf, Combo, Emoji, EmojiView, Variant, VariantView};
use crate::line::{classify, classify_line, compose, name_parts, split_name, Line, LineView};
use crate::strutil::{identifier, identifier_for};
use vstd::prelude::*;

verus! {

/// A subgroup: its name and its emoji, in declaration order.
pub struct Subgroup {
    pub identifier: String,
    pub emojis: Vec<Emoji>,
}

pub struct SubgroupView {
    pub identifier: Seq<char>,
    pub emojis: Seq<EmojiView>,
}

impl View for Subgroup {
    type V = SubgroupView;

    open spec fn view(&self) -> SubgroupView {
        SubgroupView { identifier: self.identifier@, emojis: self.emojis@.map_values(|e: Emoji| e@) }
    }
}

/// A group: its name and its subgroups, in declaration order.
pub struct Group {
    pub identifier: String,
    pub subgroups: Vec<Subgroup>,
}

pub struct GroupView {
    pub identifier: Seq<char>,
    pub subgroups: Seq<SubgroupView>,
}

impl View for Group {
    type V = GroupView;

    open spec fn view(&self) -> GroupView {
        GroupView {
            identifier: self.identifier@,
            subgroups: self.subgroups@.map_values(|s: Subgroup| s@),
        }
    }
}

/// The catalog: its groups, in declaration order.
pub struct Catalog {
    pub groups: Vec<Group>,
}

impl View for Catalog {
    type V = Seq<GroupView>;

    open spec fn view(&self) -> Seq<GroupView> {
        self.groups@.map_values(|g: Group| g@)
    }
}

/// Within a subgroup: every emoji's variants are well formed, and no two
/// emoji share a base name or an identifier.
pub open spec fn subgroup_wf(s: SubgroupView) -> bool {
    &&& forall|k: int| 0 <= k < s.emojis.len() ==> variants_wf(#[trigger] s.emojis[k].variants)
    &&& forall|i: int, j: int|
        0 <= i < j < s.emojis.len() ==> (#[trigger] s.emojis[i]).base != (#[trigger] s.emojis[j]).base
    &&& forall|i: int, j: int|
        0 <= i < j < s.emojis.len() ==> (#[trigger] s.emojis[i]).identifier != (
        #[trigger] s.emojis[j]).identifier
}

pub open spec fn group_wf(g: GroupView) -> bool {
    &&& forall|k: int| 0 <= k < g.subgroups.len() ==> subgroup_wf(#[trigger] g.subgroups[k])
    &&& forall|i: int, j: int|
        0 <= i < j < g.subgroups.len() ==> (#[trigger] g.subgroups[i]).identifier != (
        #[trigger] g.subgroups[j]).identifier
}

/// Group names are unique, subgroup names unique within their group, and
/// every subgroup is well formed.
pub open spec fn catalog_wf(gs: Seq<GroupView>) -> bool {
    &&& forall|k: int| 0 <= k < gs.len() ==> group_wf(#[trigger] gs[k])
    &&& forall|i: int, j: int|
        0 <= i < j < gs.len() ==> (#[trigger] gs[i]).identifier != (#[trigger] gs[j]).identifier
}

/// Where the parser stands between two lines.
#[derive(Clone, Copy, Debug, PartialEq, Eq, Structural)]
pub enum Cursor {
    NoGroup,
    InGroup,
    InSubgroup,
}

/// What stops the parse.
#[derive(Clone, Copy, Debug, PartialEq, Eq, Structural)]
pub enum ErrorKind {
    /// A subgroup line before any group, or a data line before any subgroup.
    MissingContext,
    /// A group or subgroup name declared twice in its scope.
    DuplicateIdentifier,
    /// Qualifiers made of modifier tokens that do not fit the axes.
    UnrecognizedModifier,
    /// Two base names of one subgroup that give one identifier.
    IdentifierCollision,
    /// One modifier combination recorded twice for one emoji.
    DuplicateCombination,
    /// A data line without the record's fields.
    MalformedLine,
}

/// A parse failure: the kind, and the index of the line that caused it.
#[derive(Clone, Copy, Debug, PartialEq, Eq, Structural)]
pub struct ParseError {
    pub line: usize,
    pub kind: ErrorKind,
}

pub struct ParseState {
    pub groups: Seq<GroupView>,
    pub cursor: Cursor,
}

pub open spec fn state_wf(st: ParseState) -> bool {
    &&& catalog_wf(st.groups)
    &&& st.cursor != Cursor::NoGroup ==> st.groups.len() > 0
    &&& st.cursor == Cursor::InSubgroup ==> st.groups.len() > 0 && st.groups.last().subgroups.len() > 0
}

/// A subgroup with one more data line: added to the emoji of the same base
/// name, or as a new emoji.
pub open spec fn add_line(s: SubgroupView, base: Seq<char>, v: VariantView) -> Result<
    SubgroupView,
    ErrorKind,
> {
    if exists|i: int| 0 <= i < s.emojis.len() && (#[trigger] s.emojis[i]).base == base {
        let i = choose|i: int| 0 <= i < s.emojis.len() && (#[trigger] s.emojis[i]).base == base;
        let e = s.emojis[i];
        if exists|j: int| 0 <= j < e.variants.len() && (#[trigger] e.variants[j]).combo == v.combo {
            Err(ErrorKind::DuplicateCombination)
        } else {
            Ok(
                SubgroupView {
                    emojis: s.emojis.update(i, EmojiView { variants: e.variants.push(v), ..e }),
                    ..s
                },
            )
        }
    } else {
        let id = identifier_for(base);
        if exists|i: int| 0 <= i < s.emojis.len() && (#[trigger] s.emojis[i]).identifier == id {
            Err(ErrorKind::IdentifierCollision)
        } else {
            Ok(
                SubgroupView {
                    emojis: s.emojis.push(EmojiView { base, identifier: id, variants: seq![v] }),
                    ..s
                },
            )
        }
    }
}

/// The parser's state after one more line.
pub open spec fn step(st: ParseState, line: Seq<char>) -> Result<ParseState, ErrorKind> {
    match classify(line) {
        LineView::Blank => Ok(st),
        LineView::Comment => Ok(st),
        LineView::Group(name) => if exists|i: int|
            0 <= i < st.groups.len() && (#[trigger] st.groups[i]).identifier == name {
            Err(ErrorKind::DuplicateIdentifier)
        } else {
            Ok(
                ParseState {
                    groups: st.groups.push(GroupView { identifier: name, subgroups: Seq::empty() }),
                    cursor: Cursor::InGroup,
                },
            )
        },
        LineView::Subgroup(name) => if st.cursor == Cursor::NoGroup || st.groups.len() == 0 {
            Err(ErrorKind::MissingContext)
        } else {
            let g = st.groups.last();
            if exists|j: int| 0 <= j < g.subgroups.len() && (#[trigger] g.subgroups[j]).identifier == name {
                Err(ErrorKind::DuplicateIdentifier)
            } else {
                Ok(
                    ParseState {
                        groups: st.groups.update(
                            st.groups.len() - 1,
                            GroupView {
                                subgroups: g.subgroups.push(
                                    SubgroupView { identifier: name, emojis: Seq::empty() },
                                ),
                                ..g
                            },
                        ),
                        cursor: Cursor::InSubgroup,
                    },
                )
            }
        },
        LineView::Malformed => if !in_subgroup(st) {
            Err(ErrorKind::MissingContext)
        } else {
            Err(ErrorKind::MalformedLine)
        },
        LineView::Data { grapheme, name } => if !in_subgroup(st) {
            Err(ErrorKind::MissingContext)
        } else {
            match name_parts(name) {
                None => Err(ErrorKind::UnrecognizedModifier),
                Some((base, combo)) => {
                    let g = st.groups.last();
                    let v = VariantView { combo, name, grapheme };
                    match add_line(g.subgroups.last(), base, v) {
                        Err(k) => Err(k),
                        Ok(s2) => Ok(
                            ParseState {
                                groups: st.groups.update(
                                    st.groups.len() - 1,
                                    GroupView {
                                        subgroups: g.subgroups.update(g.subgroups.len() - 1, s2),
                                        ..g
                                    },
                                ),
                                cursor: st.cursor,
                            },
                        ),
                    }
                },
            }
        },
    }
}

pub open spec fn in_subgroup(st: ParseState) -> bool {
    st.cursor == Cursor::InSubgroup && st.groups.len() > 0 && st.groups.last().subgroups.len() > 0
}

pub open spec fn initial_state() -> ParseState {
    ParseState { groups: Seq::empty(), cursor: Cursor::NoGroup }
}

/// The parse of the first `n` lines: the state reached, or the index and
/// kind of the first failure.
pub open spec fn parse_upto(lines: Seq<Seq<char>>, n: int) -> Result<ParseState, (int, ErrorKind)>
    decreases n,
{
    if n <= 0 {
        Ok(initial_state())
    } else {
        match parse_upto(lines, n - 1) {
            Err(e) => Err(e),
            Ok(st) => match step(st, lines[n - 1]) {
                Ok(s2) => Ok(s2),
                Err(k) => Err((n - 1, k)),
            },
        }
    }
}

pub open spec fn lines_view(lines: Seq<String>) -> Seq<Seq<char>> {
    lines.map_values(|l: String| l@)
}

proof fn lemma_compose_valid(toks: Seq<Seq<char>>)
    ensures
        compose(toks) matches Some(c) ==> c.valid(),
    decreases toks.len(),
{
    if toks.len() > 0 {
        lemma_compose_valid(toks.drop_last());
    }
}

proof fn lemma_name_parts_valid(name: Seq<char>)
    ensures
        name_parts(name) matches Some((b, c)) ==> c.valid(),
{
    match crate::text::first_index(name, ':') {
        None => {},
        Some(i) => lemma_compose_valid(crate::line::qualifiers(name, i)),
    }
}

proof fn lemma_add_line_wf(s: SubgroupView, base: Seq<char>, v: VariantView)
    requires
        subgroup_wf(s),
        v.combo.valid(),
    ensures
        add_line(s, base, v) matches Ok(s2) ==> subgroup_wf(s2) && s2.identifier == s.identifier,
{
    if exists|i: int| 0 <= i < s.emojis.len() && (#[trigger] s.emojis[i]).base == base {
        let i = choose|i: int| 0 <= i < s.emojis.len() && (#[trigger] s.emojis[i]).base == base;
        let e = s.emojis[i];
        if !exists|j: int| 0 <= j < e.variants.len() && (#[trigger] e.variants[j]).combo == v.combo {
            let vs = e.variants.push(v);
            assert(variants_wf(e.variants));
            assert(variants_wf(vs)) by {
                assert forall|a: int, b: int| 0 <= a < b < vs.len() implies (#[trigger] vs[a]).combo != (
                #[trigger] vs[b]).combo by {
                    if b == vs.len() - 1 {
                        assert(vs[a] == e.variants[a]);
                    } else {
                        assert(vs[a] == e.variants[a] && vs[b] == e.variants[b]);
                    }
                }
                assert forall|a: int| 0 <= a < vs.len() implies (#[trigger] vs[a]).combo.valid() by {
                    if a < vs.len() - 1 {
                        assert(vs[a] == e.variants[a]);
                    }
                }
            }
            let es = s.emojis.update(i, EmojiView { variants: vs, ..e });
            assert forall|k: int| 0 <= k < es.len() implies variants_wf(#[trigger] es[k].variants) by {
                if k != i {
                    assert(es[k] == s.emojis[k]);
                }
            }
            assert forall|a: int, b: int| 0 <= a < b < es.len() implies (#[trigger] es[a]).base != (
            #[trigger] es[b]).base && es[a].identifier != es[b].identifier by {
                assert(s.emojis[a].base != s.emojis[b].base);
                assert(s.emojis[a].identifier != s.emojis[b].identifier);
            }
        }
    } else {
        let id = identifier_for(base);
        if !exists|i: int| 0 <= i < s.emojis.len() && (#[trigger] s.emojis[i]).identifier == id {
            let es = s.emojis.push(EmojiView { base, identifier: id, variants: seq![v] });
            assert(variants_wf(seq![v]));
            assert forall|k: int| 0 <= k < es.len() implies variants_wf(#[trigger] es[k].variants) by {
                if k < s.emojis.len() {
                    assert(es[k] == s.emojis[k]);
                }
            }
            assert forall|a: int, b: int| 0 <= a < b < es.len() implies (#[trigger] es[a]).base != (
            #[trigger] es[b]).base && es[a].identifier != es[b].identifier by {
                assert(es[a] == s.emojis[a]);
                if b < s.emojis.len() {
                    assert(es[b] == s.emojis[b]);
                }
            }
        }
    }
}

proof fn lemma_replace_last_subgroup(g: GroupView, s2: SubgroupView)
    requires
        group_wf(g),
        g.subgroups.len() > 0,
        subgroup_wf(s2),
        s2.identifier == g.subgroups.last().identifier,
    ensures
        group_wf(GroupView { subgroups: g.subgroups.update(g.subgroups.len() - 1, s2), ..g }),
{
    let ss = g.subgroups.update(g.subgroups.len() - 1, s2);
    assert forall|k: int| 0 <= k < ss.len() implies subgroup_wf(#[trigger] ss[k]) by {
        if k < ss.len() - 1 {
            assert(ss[k] == g.subgroups[k]);
        }
    }
    assert forall|a: int, b: int| 0 <= a < b < ss.len() implies (#[trigger] ss[a]).identifier != (
    #[trigger] ss[b]).identifier by {
        assert(g.subgroups[a].identifier != g.subgroups[b].identifier);
    }
}

proof fn lemma_replace_last_group(gs: Seq<GroupView>, g2: GroupView)
    requires
        catalog_wf(gs),
        gs.len() > 0,
        group_wf(g2),
        g2.identifier == gs.last().identifier,
    ensures
        catalog_wf(gs.update(gs.len() - 1, g2)),
{
    let ns = gs.update(gs.len() - 1, g2);
    assert forall|k: int| 0 <= k < ns.len() implies group_wf(#[trigger] ns[k]) by {
        if k < ns.len() - 1 {
            assert(ns[k] == gs[k]);
        }
    }
    assert forall|a: int, b: int| 0 <= a < b < ns.len() implies (#[trigger] ns[a]).identifier != (
    #[trigger] ns[b]).identifier by {
        assert(gs[a].identifier != gs[b].identifier);
    }
}

/// Every step keeps the parser's state well formed: unique group names,
/// unique subgroup names per group, and per subgroup unique base names,
/// unique identifiers and unique modifier combinations per emoji.
pub proof fn lemma_step_wf(st: ParseState, line: Seq<char>)
    requires
        state_wf(st),
    ensures
        step(st, line) matches Ok(s2) ==> state_wf(s2),
{
    match classify(line) {
        LineView::Group(name) => {
            if !exists|i: int| 0 <= i < st.groups.len() && (#[trigger] st.groups[i]).identifier == name {
                let ns = st.groups.push(GroupView { identifier: name, subgroups: Seq::empty() });
                assert forall|k: int| 0 <= k < ns.len() implies group_wf(#[trigger] ns[k]) by {
                    if k < st.groups.len() {
                        assert(ns[k] == st.groups[k]);
                    }
                }
                assert forall|a: int, b: int| 0 <= a < b < ns.len() implies (#[trigger] ns[a]).identifier != (
                #[trigger] ns[b]).identifier by {
                    assert(ns[a] == st.groups[a]);
                    if b < st.groups.len() {
                        assert(ns[b] == st.groups[b]);
                    }
                }
            }
        },
        LineView::Subgroup(name) => {
            if st.cursor != Cursor::NoGroup && st.groups.len() > 0 {
                let g = st.groups.last();
                if !exists|j: int| 0 <= j < g.subgroups.len() && (#[trigger] g.subgroups[j]).identifier == name {
                    let ss = g.subgroups.push(SubgroupView { identifier: name, emojis: Seq::empty() });
                    let g2 = GroupView { subgroups: ss, ..g };
                    assert(group_wf(g));
                    assert forall|k: int| 0 <= k < ss.len() implies subgroup_wf(#[trigger] ss[k]) by {
                        if k < g.subgroups.len() {
                            assert(ss[k] == g.subgroups[k]);
                        }
                    }
                    assert forall|a: int, b: int| 0 <= a < b < ss.len() implies (#[trigger] ss[a]).identifier != (
                    #[trigger] ss[b]).identifier by {
                        assert(ss[a] == g.subgroups[a]);
                        if b < g.subgroups.len() {
                            assert(ss[b] == g.subgroups[b]);
                        }
                    }
                    lemma_replace_last_group(st.groups, g2);
                }
            }
        },
        LineView::Data { grapheme, name } => {
            if in_subgroup(st) {
                lemma_name_parts_valid(name);
                match name_parts(name) {
                    None => {},
                    Some((base, combo)) => {
                        let g = st.groups.last();
                        let v = VariantView { combo, name, grapheme };
                        assert(group_wf(g));
                        assert(subgroup_wf(g.subgroups.last()));
                        lemma_add_line_wf(g.subgroups.last(), base, v);
                        match add_line(g.subgroups.last(), base, v) {
                            Err(k) => {},
                            Ok(s2) => {
                                lemma_replace_last_subgroup(g, s2);
                                lemma_replace_last_group(
                                    st.groups,
                                    GroupView {
                                        subgroups: g.subgroups.update(g.subgroups.len() - 1, s2),
                                        ..g
                                    },
                                );
                            },
                        }
                    },
                }
            }
        },
        _ => {},
    }
}

fn find_base(es: &Vec<Emoji>, base: &String) -> (r: Option<usize>)
    ensures
        match r {
            Some(k) => k < es@.len() && es@[k as int]@.base == base@,
            None => forall|k: int| 0 <= k < es@.len() ==> (#[trigger] es@[k])@.base != base@,
        },
{
    let mut k: usize = 0;
    while k < es.len()
        invariant
            k <= es@.len(),
            forall|j: int| 0 <= j < k ==> (#[trigger] es@[j])@.base != base@,
        decreases es@.len() - k,
    {
        if es[k].base == *base {
            return Some(k);
        }
        k = k + 1;
    }
    None
}

fn has_identifier(es: &Vec<Emoji>, id: &String) -> (r: bool)
    ensures
        r == exists|k: int| 0 <= k < es@.len() && (#[trigger] es@[k])@.identifier == id@,
{
    let mut k: usize = 0;
    while k < es.len()
        invariant
            k <= es@.len(),
            forall|j: int| 0 <= j < k ==> (#[trigger] es@[j])@.identifier != id@,
        decreases es@.len() - k,
    {
        if es[k].identifier == *id {
            return true;
        }
        k = k + 1;
    }
    false
}

fn has_combo(vs: &Vec<Variant>, c: Combo) -> (r: bool)
    ensures
        r == exists|k: int| 0 <= k < vs@.len() && (#[trigger] vs@[k]).combo == c,
{
    let mut k: usize = 0;
    while k < vs.len()
        invariant
            k <= vs@.len(),
            forall|j: int| 0 <= j < k ==> (#[trigger] vs@[j]).combo != c,
        decreases vs@.len() - k,
    {
        if vs[k].combo == c {
            return true;
        }
        k = k + 1;
    }
    false
}

fn has_subgroup(ss: &Vec<Subgroup>, name: &String) -> (r: bool)
    ensures
        r == exists|k: int| 0 <= k < ss@.len() && (#[trigger] ss@[k])@.identifier == name@,
{
    let mut k: usize = 0;
    while k < ss.len()
        invariant
            k <= ss@.len(),
            forall|j: int| 0 <= j < k ==> (#[trigger] ss@[j])@.identifier != name@,
        decreases ss@.len() - k,
    {
        if ss[k].identifier == *name {
            return true;
        }
        k = k + 1;
    }
    false
}

fn has_group(gs: &Vec<Group>, name: &String) -> (r: bool)
    ensures
        r == exists|k: int| 0 <= k < gs@.len() && (#[trigger] gs@[k])@.identifier == name@,
{
    let mut k: usize = 0;
    while k < gs.len()
        invariant
            k <= gs@.len(),
            forall|j: int| 0 <= j < k ==> (#[trigger] gs@[j])@.identifier != name@,
        decreases gs@.len() - k,
    {
        if gs[k].identifier == *name {
            return true;
        }
        k = k + 1;
    }
    false
}

/// The parser: the catalog built so far and the cursor.
pub struct Parser {
    pub groups: Vec<Group>,
    pub cursor: Cursor,
}

impl Parser {
    pub open spec fn state(&self) -> ParseState {
        ParseState { groups: self.groups@.map_values(|g: Group| g@), cursor: self.cursor }
    }

    pub fn new() -> (r: Parser)
        ensures
            r.state() == initial_state(),
            state_wf(r.state()),
    {
        let r = Parser { groups: Vec::new(), cursor: Cursor::NoGroup };
        assert(r.state().groups =~= Seq::<GroupView>::empty());
        r
    }

    /// Feeds one line to the parser.
    pub fn step(&mut self, line: &str) -> (r: Result<(), ErrorKind>)
        requires
            state_wf(old(self).state()),
        ensures
            match step(old(self).state(), line@) {
                Ok(s2) => r is Ok && final(self).state() == s2,
                Err(k) => r == Err::<(), ErrorKind>(k),
            },
            r is Ok ==> state_wf(final(self).state()),
    {
        let ghost st = self.state();
        proof {
            lemma_step_wf(st, line@);
        }
        match classify_line(line) {
            Line::Blank => Ok(()),
            Line::Comment => Ok(()),
            Line::Group(name) => {
                if has_group(&self.groups, &name) {
                    proof {
                        let k = choose|k: int| 0 <= k < self.groups@.len() && (#[trigger] self.groups@[k])@.identifier == name@;
                        assert(st.groups[k].identifier == name@);
                    }
                    return Err(ErrorKind::DuplicateIdentifier);
                }
                proof {
                    assert forall|i: int| 0 <= i < st.groups.len() implies (#[trigger] st.groups[i]).identifier != name@ by {
                        assert(st.groups[i] == self.groups@[i]@);
                    }
                }
                self.groups.push(Group { identifier: name, subgroups: Vec::new() });
                self.cursor = Cursor::InGroup;
                proof {
                    let gv = GroupView { identifier: name@, subgroups: Seq::empty() };
                    assert(self.groups@.last()@.subgroups =~= Seq::<SubgroupView>::empty());
                    assert(self.state().groups =~= st.groups.push(gv));
                }
                Ok(())
            },
            Line::Subgroup(name) => {
                if self.cursor == Cursor::NoGroup {
                    return Err(ErrorKind::MissingContext);
                }
                let gl = self.groups.len();
                if has_subgroup(&self.groups[gl - 1].subgroups, &name) {
                    proof {
                        let ss = self.groups@[gl - 1].subgroups@;
                        let k = choose|k: int| 0 <= k < ss.len() && (#[trigger] ss[k])@.identifier == name@;
                        assert(st.groups.last().subgroups[k].identifier == name@);
                    }
                    return Err(ErrorKind::DuplicateIdentifier);
                }
                let ghost g = st.groups.last();
                proof {
                    assert(g == self.groups@[gl - 1]@);
                    assert forall|j: int| 0 <= j < g.subgroups.len() implies (#[trigger] g.subgroups[j]).identifier != name@ by {
                        assert(g.subgroups[j] == self.groups@[gl - 1].subgroups@[j]@);
                    }
                }
                let mut grp = self.groups.pop().unwrap();
                let ghost old_subs = grp.subgroups@;
                grp.subgroups.push(Subgroup { identifier: name, emojis: Vec::new() });
                self.groups.push(grp);
                self.cursor = Cursor::InSubgroup;
                proof {
                    let sv = SubgroupView { identifier: name@, emojis: Seq::empty() };
                    assert(grp.subgroups@.last()@.emojis =~= Seq::<EmojiView>::empty());
                    assert(grp@.subgroups =~= g.subgroups.push(sv));
                    assert(self.state().groups =~= st.groups.update(
                        st.groups.len() - 1,
                        GroupView { subgroups: g.subgroups.push(sv), ..g },
                    ));
                }
                Ok(())
            },
            Line::Malformed => {
                if self.cursor != Cursor::InSubgroup {
                    Err(ErrorKind::MissingContext)
                } else {
                    Err(ErrorKind::MalformedLine)
                }
            },
            Line::Data { grapheme, name } => {
                if self.cursor != Cursor::InSubgroup {
                    return Err(ErrorKind::MissingContext);
                }
                let (base, combo) = match split_name(name.as_str()) {
                    None => {
                        return Err(ErrorKind::UnrecognizedModifier);
                    },
                    Some(p) => p,
                };
                let gl = self.groups.len();
                let sl = self.groups[gl - 1].subgroups.len();
                let ghost g = st.groups.last();
                let ghost sv = g.subgroups.last();
                let ghost v = VariantView { combo, name: name@, grapheme: grapheme@ };
                proof {
                    assert(g == self.groups@[gl - 1]@);
                    assert(sv == self.groups@[gl - 1].subgroups@[sl - 1]@);
                    assert(group_wf(g));
                    assert(subgroup_wf(sv));
                }
                let variant = Variant { combo, name, grapheme };
                match find_base(&self.groups[gl - 1].subgroups[sl - 1].emojis, &base) {
                    Some(k) => {
                        let ghost e = sv.emojis[k as int];
                        proof {
                            assert(sv.emojis[k as int].base == base@);
                            let c = choose|i: int| 0 <= i < sv.emojis.len() && (#[trigger] sv.emojis[i]).base == base@;
                            assert(c == k as int);
                            assert(e == self.groups@[gl - 1].subgroups@[sl - 1].emojis@[k as int]@);
                        }
                        if has_combo(&self.groups[gl - 1].subgroups[sl - 1].emojis[k].variants, combo) {
                            proof {
                                let vs = self.groups@[gl - 1].subgroups@[sl - 1].emojis@[k as int].variants@;
                                let j = choose|j: int| 0 <= j < vs.len() && (#[trigger] vs[j]).combo == combo;
                                assert(e.variants[j] == vs[j]@);
                            }
                            return Err(ErrorKind::DuplicateCombination);
                        }
                        proof {
                            let vs = self.groups@[gl - 1].subgroups@[sl - 1].emojis@[k as int].variants@;
                            assert forall|j: int| 0 <= j < e.variants.len() implies (#[trigger] e.variants[j]).combo != combo by {
                                assert(e.variants[j] == vs[j]@);
                            }
                        }
                        let mut grp = self.groups.pop().unwrap();
                        let mut sub = grp.subgroups.pop().unwrap();
                        let ghost old_es = sub.emojis@;
                        let mut em = sub.emojis.remove(k);
                        let ghost old_vs = em.variants@;
                        em.variants.push(variant);
                        proof {
                            assert(em@.variants =~= e.variants.push(v));
                        }
                        sub.emojis.insert(k, em);
                        proof {
                            assert(sub.emojis@ =~= old_es.update(k as int, em));
                            assert(sub@.emojis =~= sv.emojis.update(k as int, EmojiView { variants: e.variants.push(v), ..e }));
                        }
                        grp.subgroups.push(sub);
                        proof {
                            assert(grp@.subgroups =~= g.subgroups.update(g.subgroups.len() - 1, sub@));
                        }
                        self.groups.push(grp);
                        proof {
                            assert(self.state().groups =~= st.groups.update(st.groups.len() - 1, grp@));
                        }
                        Ok(())
                    },
                    None => {
                        let id = identifier(base.as_str());
                        if has_identifier(&self.groups[gl - 1].subgroups[sl - 1].emojis, &id) {
                            proof {
                                let es = self.groups@[gl - 1].subgroups@[sl - 1].emojis@;
                                let j = choose|j: int| 0 <= j < es.len() && (#[trigger] es[j])@.identifier == id@;
                                assert(sv.emojis[j] == es[j]@);
                            }
                            return Err(ErrorKind::IdentifierCollision);
                        }
                        proof {
                            let es = self.groups@[gl - 1].subgroups@[sl - 1].emojis@;
                            assert forall|j: int| 0 <= j < sv.emojis.len() implies (#[trigger] sv.emojis[j]).identifier != id@ && sv.emojis[j].base != base@ by {
                                assert(sv.emojis[j] == es[j]@);
                            }
                        }
                        let mut vs: Vec<Variant> = Vec::new();
                        vs.push(variant);
                        let em = Emoji { base, identifier: id, variants: vs };
                        proof {
                            assert(em@.variants =~= seq![v]);
                        }
                        let mut grp = self.groups.pop().unwrap();
                        let mut sub = grp.subgroups.pop().unwrap();
                        sub.emojis.push(em);
                        proof {
                            assert(sub@.emojis =~= sv.emojis.push(em@));
                        }
                        grp.subgroups.push(sub);
                        proof {
                            assert(grp@.subgroups =~= g.subgroups.update(g.subgroups.len() - 1, sub@));
                        }
                        self.groups.push(grp);
                        proof {
                            assert(self.state().groups =~= st.groups.update(st.groups.len() - 1, grp@));
                        }
                        Ok(())
                    },
                }
            },
        }
    }
}

/// Parses the registry's lines into a catalog, or reports the first line
/// that cannot be taken and why.
pub fn parse_catalog(lines: &Vec<String>) -> (r: Result<Catalog, ParseError>)
    ensures
        match parse_upto(lines_view(lines@), lines@.len() as int) {
            Ok(st) => r matches Ok(c) && c@ == st.groups,
            Err((i, k)) => r == Err::<Catalog, ParseError>(ParseError { line: i as usize, kind: k }),
        },
        r matches Ok(c) ==> catalog_wf(c@),
{
    let ghost lv = lines_view(lines@);
    let mut parser = Parser::new();
    let mut i: usize = 0;
    while i < lines.len()
        invariant
            i <= lines@.len(),
            lv == lines_view(lines@),
            parse_upto(lv, i as int) == Ok::<ParseState, (int, ErrorKind)>(parser.state()),
            state_wf(parser.state()),
        decreases lines@.len() - i,
    {
        assert(lv[i as int] == lines@[i as int]@);
        match parser.step(lines[i].as_str()) {
            Ok(()) => {},
            Err(kind) => {
                proof {
                    lemma_parse_upto_err_stays(lv, i as int + 1, lines@.len() as int);
                }
                return Err(ParseError { line: i, kind });
            },
        }
        i = i + 1;
    }
    Ok(Catalog { groups: parser.groups })
}

proof fn lemma_parse_upto_err_stays(lines: Seq<Seq<char>>, m: int, n: int)
    requires
        1 <= m <= n,
        parse_upto(lines, m) is Err,
    ensures
        parse_upto(lines, n) == parse_upto(lines, m),
    decreases n - m,
{
    if m < n {
        lemma_parse_upto_err_stays(lines, m, n - 1);
    }
}

/// Every prefix of the input that parses leaves a well-formed state.
pub proof fn lemma_parse_upto_wf(lines: Seq<Seq<char>>, n: int)
    ensures
        parse_upto(lines, n) matches Ok(st) ==> state_wf(st),
    decreases n,
{
    if n > 0 {
        lemma_parse_upto_wf(lines, n - 1);
        if let Ok(st) = parse_upto(lines, n - 1) {
            lemma_step_wf(st, lines[n - 1]);
        }
    }
}

/// A data line that the parser accepts lands in exactly one emoji: the one
/// of its base name in the current subgroup, which base names identify
/// uniquely, and whose last recorded variant is the line's combination,
/// display name and grapheme.
pub proof fn lemma_data_line_recorded(st: ParseState, line: Seq<char>)
    requires
        state_wf(st),
        classify(line) is Data,
        step(st, line) is Ok,
    ensures
        ({
            let s2 = step(st, line)->Ok_0;
            let g = s2.groups.last();
            let sub = g.subgroups.last();
            let (base, combo) = name_parts(classify(line)->Data_name)->Some_0;
            &&& s2.groups.len() == st.groups.len()
            &&& g.subgroups.len() == st.groups.last().subgroups.len()
            &&& exists|k: int|
                0 <= k < sub.emojis.len() && (#[trigger] sub.emojis[k]).base == base
                    && sub.emojis[k].variants.last() == (VariantView {
                    combo,
                    name: classify(line)->Data_name,
                    grapheme: classify(line)->Data_grapheme,
                }) && forall|j: int|
                    0 <= j < sub.emojis.len() && j != k ==> (#[trigger] sub.emojis[j]).base != base
        }),
{
    lemma_step_wf(st, line);
    let s2 = step(st, line)->Ok_0;
    let g = s2.groups.last();
    let sub = g.subgroups.last();
    let name = classify(line)->Data_name;
    let (base, combo) = name_parts(name)->Some_0;
    let v = VariantView { combo, name, grapheme: classify(line)->Data_grapheme };
    let s = st.groups.last().subgroups.last();
    assert(group_wf(s2.groups.last()));
    assert(subgroup_wf(sub));
    if exists|i: int| 0 <= i < s.emojis.len() && (#[trigger] s.emojis[i]).base == base {
        let i = choose|i: int| 0 <= i < s.emojis.len() && (#[trigger] s.emojis[i]).base == base;
        assert(sub.emojis[i].base == base);
        assert(sub.emojis[i].variants.last() == v);
    } else {
        let k = sub.emojis.len() - 1;
        assert(sub.emojis[k].base == base);
        assert(sub.emojis[k].variants.last() == v);
    }
}

pub open spec fn emoji_variant_count(es: Seq<EmojiView>) -> int
    decreases es.len(),
{
    if es.len() == 0 {
        0
    } else {
        emoji_variant_count(es.drop_last()) + es.last().variants.len()
    }
}

pub open spec fn subgroup_variant_count(ss: Seq<SubgroupView>) -> int
    decreases ss.len(),
{
    if ss.len() == 0 {
        0
    } else {
        subgroup_variant_count(ss.drop_last()) + emoji_variant_count(ss.last().emojis)
    }
}

/// The number of variants recorded in a catalog.
pub open spec fn variant_count(gs: Seq<GroupView>) -> int
    decreases gs.len(),
{
    if gs.len() == 0 {
        0
    } else {
        variant_count(gs.drop_last()) + subgroup_variant_count(gs.last().subgroups)
    }
}

/// The number of data lines among the first `n` lines.
pub open spec fn data_line_count(lines: Seq<Seq<char>>, n: int) -> int
    decreases n,
{
    if n <= 0 {
        0
    } else {
        data_line_count(lines, n - 1) + if classify(lines[n - 1]) is Data { 1int } else { 0 }
    }
}

proof fn lemma_emoji_count_update(es: Seq<EmojiView>, i: int, e: EmojiView)
    requires
        0 <= i < es.len(),
    ensures
        emoji_variant_count(es.update(i, e)) == emoji_variant_count(es) - es[i].variants.len()
            + e.variants.len(),
    decreases es.len(),
{
    let u = es.update(i, e);
    if i == es.len() - 1 {
        assert(u.drop_last() =~= es.drop_last());
    } else {
        lemma_emoji_count_update(es.drop_last(), i, e);
        assert(u.drop_last() =~= es.drop_last().update(i, e));
    }
}

proof fn lemma_add_line_count(s: SubgroupView, base: Seq<char>, v: VariantView)
    ensures
        add_line(s, base, v) matches Ok(s2) ==> emoji_variant_count(s2.emojis) == emoji_variant_count(
            s.emojis,
        ) + 1,
{
    if exists|i: int| 0 <= i < s.emojis.len() && (#[trigger] s.emojis[i]).base == base {
        let i = choose|i: int| 0 <= i < s.emojis.len() && (#[trigger] s.emojis[i]).base == base;
        let e = s.emojis[i];
        lemma_emoji_count_update(s.emojis, i, EmojiView { variants: e.variants.push(v), ..e });
    } else {
        let id = identifier_for(base);
        let n = EmojiView { base, identifier: id, variants: seq![v] };
        assert(s.emojis.push(n).drop_last() =~= s.emojis);
    }
}

/// Each parse step records one variant for a data line and none for any
/// other line.
proof fn lemma_step_count(st: ParseState, line: Seq<char>)
    requires
        state_wf(st),
    ensures
        step(st, line) matches Ok(s2) ==> variant_count(s2.groups) == variant_count(st.groups) + if classify(
            line,
        ) is Data {
            1int
        } else {
            0
        },
{
    match classify(line) {
        LineView::Group(name) => {
            let ns = st.groups.push(GroupView { identifier: name, subgroups: Seq::empty() });
            assert(ns.drop_last() =~= st.groups);
        },
        LineView::Subgroup(name) => {
            if st.cursor != Cursor::NoGroup && st.groups.len() > 0 {
                let g = st.groups.last();
                let ss = g.subgroups.push(SubgroupView { identifier: name, emojis: Seq::empty() });
                assert(ss.drop_last() =~= g.subgroups);
                let ns = st.groups.update(st.groups.len() - 1, GroupView { subgroups: ss, ..g });
                assert(ns.drop_last() =~= st.groups.drop_last());
            }
        },
        LineView::Data { grapheme, name } => {
            if in_subgroup(st) {
                match name_parts(name) {
                    None => {},
                    Some((base, combo)) => {
                        let g = st.groups.last();
                        let v = VariantView { combo, name, grapheme };
                        lemma_add_line_count(g.subgroups.last(), base, v);
                        match add_line(g.subgroups.last(), base, v) {
                            Err(k) => {},
                            Ok(s2) => {
                                let ss = g.subgroups.update(g.subgroups.len() - 1, s2);
                                assert(ss.drop_last() =~= g.subgroups.drop_last());
                                let ns = st.groups.update(st.groups.len() - 1, GroupView { subgroups: ss, ..g });
                                assert(ns.drop_last() =~= st.groups.drop_last());
                            },
                        }
                    },
                }
            }
        },
        _ => {},
    }
}

/// Every data line of an input that parses is recorded as exactly one
/// variant: the variants of the catalog number the data lines.
pub proof fn lemma_parse_counts_data_lines(lines: Seq<Seq<char>>, n: int)
    requires
        0 <= n <= lines.len(),
    ensures
        parse_upto(lines, n) matches Ok(st) ==> variant_count(st.groups) == data_line_count(lines, n),
    decreases n,
{
    if n > 0 {
        lemma_parse_counts_data_lines(lines, n - 1);
        lemma_parse_upto_wf(lines, n - 1);
        if let Ok(st) = parse_upto(lines, n - 1) {
            lemma_step_count(st, lines[n - 1]);
        }
    }
}

} // verus!
