//! The alias table: every emoji's primary alias, and the aliases of an
//! outside dataset that resolve to a grapheme of the catalog.
use crate::catalog::{catalog_wf, subgroup_wf, group_wf, Catalog, GroupView, SubgroupView};
use crate::emoji::{default_grapheme_of, full_list, variants_view, Emoji, EmojiView, VariantView};
use crate::strutil::{primary_alias, primary_alias_for};
use vstd::prelude::*;

verus! {

/// The emoji of a run of subgroups, in declaration order.
pub open spec fn emojis_of_subgroups(ss: Seq<SubgroupView>) -> Seq<EmojiView>
    decreases ss.len(),
{
    if ss.len() == 0 {
        Seq::empty()
    } else {
        emojis_of_subgroups(ss.drop_last()) + ss.last().emojis
    }
}

/// The emoji of a run of groups, in declaration order.
pub open spec fn emojis_of_groups(gs: Seq<GroupView>) -> Seq<EmojiView>
    decreases gs.len(),
{
    if gs.len() == 0 {
        Seq::empty()
    } else {
        emojis_of_groups(gs.drop_last()) + emojis_of_subgroups(gs.last().subgroups)
    }
}

pub open spec fn emojis_view(es: Seq<Emoji>) -> Seq<EmojiView> {
    es.map_values(|e: Emoji| e@)
}

pub open spec fn pairs_view(ps: Seq<(String, String)>) -> Seq<(Seq<char>, Seq<char>)> {
    ps.map_values(|p: (String, String)| (p.0@, p.1@))
}

pub open spec fn is_first_key(t: Seq<(Seq<char>, Seq<char>)>, k: Seq<char>, i: int) -> bool {
    0 <= i < t.len() && t[i].0 == k && forall|j: int| 0 <= j < i ==> t[j].0 != k
}

/// The value of the first entry with key `k`, if any.
pub open spec fn lookup(t: Seq<(Seq<char>, Seq<char>)>, k: Seq<char>) -> Option<Seq<char>> {
    if exists|i: int| is_first_key(t, k, i) {
        Some(t[choose|i: int| is_first_key(t, k, i)].1)
    } else {
        None
    }
}

pub open spec fn has_key(t: Seq<(Seq<char>, Seq<char>)>, k: Seq<char>) -> bool {
    exists|i: int| 0 <= i < t.len() && (#[trigger] t[i]).0 == k
}

/// The grapheme index after the graphemes of `vs`: a grapheme already
/// indexed keeps its identifier.
pub open spec fn index_variants(
    idx: Seq<(Seq<char>, Seq<char>)>,
    vs: Seq<VariantView>,
    id: Seq<char>,
) -> Seq<(Seq<char>, Seq<char>)>
    decreases vs.len(),
{
    if vs.len() == 0 {
        idx
    } else {
        let prev = index_variants(idx, vs.drop_last(), id);
        if has_key(prev, vs.last().grapheme) {
            prev
        } else {
            prev.push((vs.last().grapheme, id))
        }
    }
}

/// The grapheme index of a run of emoji: every grapheme of every full list,
/// mapped to the identifier of the first emoji that has it.
pub open spec fn grapheme_index(es: Seq<EmojiView>) -> Seq<(Seq<char>, Seq<char>)>
    decreases es.len(),
{
    if es.len() == 0 {
        Seq::empty()
    } else {
        index_variants(grapheme_index(es.drop_last()), full_list(es.last().variants), es.last().identifier)
    }
}

/// The primary aliases of a run of emoji, one per emoji with a default
/// grapheme; `None` where two emoji give the same alias.
pub open spec fn primary_aliases(es: Seq<EmojiView>) -> Option<Seq<(Seq<char>, Seq<char>)>>
    decreases es.len(),
{
    if es.len() == 0 {
        Some(Seq::empty())
    } else {
        match primary_aliases(es.drop_last()) {
            None => None,
            Some(prev) => {
                let e = es.last();
                if default_grapheme_of(e.variants) is Some {
                    let a = primary_alias_for(e.identifier);
                    if has_key(prev, a) {
                        None
                    } else {
                        Some(prev.push((a, e.identifier)))
                    }
                } else {
                    Some(prev)
                }
            },
        }
    }
}

/// The alias table and the unresolved entries after merging the outside
/// entries `ext`: a key already in the table is passed over; one whose
/// grapheme is indexed joins the table; the others are unresolved.
pub open spec fn merge_external(
    table: Seq<(Seq<char>, Seq<char>)>,
    idx: Seq<(Seq<char>, Seq<char>)>,
    ext: Seq<(Seq<char>, Seq<char>)>,
) -> (Seq<(Seq<char>, Seq<char>)>, Seq<(Seq<char>, Seq<char>)>)
    decreases ext.len(),
{
    if ext.len() == 0 {
        (table, Seq::empty())
    } else {
        let (t, u) = merge_external(table, idx, ext.drop_last());
        let (k, g) = ext.last();
        if has_key(t, k) {
            (t, u)
        } else {
            match lookup(idx, g) {
                Some(id) => (t.push((k, id)), u),
                None => (t, u.push((k, g))),
            }
        }
    }
}

/// Lexicographic order on texts, by code point.
pub open spec fn text_le(a: Seq<char>, b: Seq<char>) -> bool
    decreases a.len(),
{
    if a.len() == 0 {
        true
    } else if b.len() == 0 {
        false
    } else if a[0] < b[0] {
        true
    } else if a[0] > b[0] {
        false
    } else {
        text_le(a.drop_first(), b.drop_first())
    }
}

pub open spec fn sorted_by_key(t: Seq<(Seq<char>, Seq<char>)>) -> bool {
    forall|i: int, j: int| 0 <= i < j < t.len() ==> text_le(#[trigger] t[i].0, #[trigger] t[j].0)
}

pub open spec fn keys_unique(t: Seq<(Seq<char>, Seq<char>)>) -> bool {
    forall|i: int, j: int| 0 <= i < j < t.len() ==> (#[trigger] t[i]).0 != (#[trigger] t[j]).0
}

/// Relies on std's `slice::sort`: the same pairs, ordered with the first
/// strings non-decreasing (strings compare by bytes, and UTF-8 keeps the
/// order of code points).
#[verifier::external_body]
fn sort_pairs(v: &mut Vec<(String, String)>)
    ensures
        pairs_view(final(v)@).to_multiset() == pairs_view(old(v)@).to_multiset(),
        sorted_by_key(pairs_view(final(v)@)),
{
    v.sort()
}

fn find_key(t: &Vec<(String, String)>, k: &String) -> (r: Option<usize>)
    ensures
        match r {
            Some(i) => is_first_key(pairs_view(t@), k@, i as int) && lookup(pairs_view(t@), k@) == Some(
                pairs_view(t@)[i as int].1,
            ) && has_key(pairs_view(t@), k@),
            None => !has_key(pairs_view(t@), k@) && lookup(pairs_view(t@), k@) is None,
        },
{
    let ghost tv = pairs_view(t@);
    let mut i: usize = 0;
    while i < t.len()
        invariant
            i <= t@.len(),
            tv == pairs_view(t@),
            forall|j: int| 0 <= j < i ==> tv[j].0 != k@,
        decreases t@.len() - i,
    {
        if t[i].0 == *k {
            proof {
                assert(is_first_key(tv, k@, i as int));
                let c = choose|c: int| is_first_key(tv, k@, c);
                if c < i {
                    assert(tv[c].0 != k@);
                } else if c > i {
                    assert(tv[i as int].0 != k@);
                }
            }
            return Some(i);
        }
        i = i + 1;
    }
    proof {
        if exists|c: int| is_first_key(tv, k@, c) {
            let c = choose|c: int| is_first_key(tv, k@, c);
            assert(tv[c].0 != k@);
        }
        if has_key(tv, k@) {
            let c = choose|c: int| 0 <= c < tv.len() && (#[trigger] tv[c]).0 == k@;
            assert(tv[c].0 != k@);
        }
    }
    None
}

/// Every emoji of the catalog, in declaration order.
pub fn all_emojis(cat: &Catalog) -> (r: Vec<Emoji>)
    requires
        catalog_wf(cat@),
    ensures
        emojis_view(r@) == emojis_of_groups(cat@),
        forall|k: int| 0 <= k < r@.len() ==> (#[trigger] r@[k]).wf(),
{
    let ghost gs = cat@;
    let mut out: Vec<Emoji> = Vec::new();
    let mut i: usize = 0;
    proof {
        assert(gs.subrange(0, 0) =~= Seq::<GroupView>::empty());
        assert(emojis_view(out@) =~= emojis_of_groups(gs.subrange(0, 0)));
    }
    while i < cat.groups.len()
        invariant
            i <= cat.groups@.len(),
            gs == cat@,
            catalog_wf(gs),
            emojis_view(out@) == emojis_of_groups(gs.subrange(0, i as int)),
            forall|k: int| 0 <= k < out@.len() ==> (#[trigger] out@[k]).wf(),
        decreases cat.groups@.len() - i,
    {
        let g = &cat.groups[i];
        let ghost ss = g@.subgroups;
        let ghost base = emojis_view(out@);
        proof {
            assert(gs[i as int] == g@);
            assert(group_wf(g@));
            assert(ss.subrange(0, 0) =~= Seq::<SubgroupView>::empty());
            assert(emojis_view(out@) =~= base + emojis_of_subgroups(ss.subrange(0, 0)));
        }
        let mut j: usize = 0;
        while j < g.subgroups.len()
            invariant
                j <= g.subgroups@.len(),
                ss == g@.subgroups,
                group_wf(g@),
                emojis_view(out@) == base + emojis_of_subgroups(ss.subrange(0, j as int)),
                forall|k: int| 0 <= k < out@.len() ==> (#[trigger] out@[k]).wf(),
            decreases g.subgroups@.len() - j,
        {
            let sub = &g.subgroups[j];
            let ghost es = sub@.emojis;
            let ghost mid = emojis_view(out@);
            proof {
                assert(ss[j as int] == sub@);
                assert(subgroup_wf(sub@));
                assert(es.subrange(0, 0) =~= Seq::<EmojiView>::empty());
                assert(emojis_view(out@) =~= mid + es.subrange(0, 0));
            }
            let mut k: usize = 0;
            while k < sub.emojis.len()
                invariant
                    k <= sub.emojis@.len(),
                    es == sub@.emojis,
                    subgroup_wf(sub@),
                    emojis_view(out@) == mid + es.subrange(0, k as int),
                    forall|m: int| 0 <= m < out@.len() ==> (#[trigger] out@[m]).wf(),
                decreases sub.emojis@.len() - k,
            {
                let ghost before = out@;
                let e = sub.emojis[k].duplicate();
                proof {
                    assert(es[k as int] == sub.emojis@[k as int]@);
                }
                out.push(e);
                proof {
                    assert(emojis_view(out@) =~= emojis_view(before).push(e@));
                    assert(es.subrange(0, k + 1) =~= es.subrange(0, k as int).push(es[k as int]));
                    assert(emojis_view(out@) =~= mid + es.subrange(0, k + 1));
                    assert forall|m: int| 0 <= m < out@.len() implies (#[trigger] out@[m]).wf() by {
                        if m < before.len() {
                            assert(out@[m] == before[m]);
                        }
                    }
                }
                k = k + 1;
            }
            proof {
                assert(es.subrange(0, sub.emojis@.len() as int) =~= es);
                assert(ss.subrange(0, j + 1).drop_last() =~= ss.subrange(0, j as int));
                assert(emojis_view(out@) =~= base + emojis_of_subgroups(ss.subrange(0, j + 1)));
            }
            j = j + 1;
        }
        proof {
            assert(ss.subrange(0, g.subgroups@.len() as int) =~= ss);
            assert(gs.subrange(0, i + 1).drop_last() =~= gs.subrange(0, i as int));
        }
        i = i + 1;
    }
    proof {
        assert(gs.subrange(0, cat.groups@.len() as int) =~= gs);
    }
    out
}

/// The grapheme index of a run of emoji.
pub fn build_index(es: &Vec<Emoji>) -> (r: Vec<(String, String)>)
    requires
        forall|k: int| 0 <= k < es@.len() ==> (#[trigger] es@[k]).wf(),
    ensures
        pairs_view(r@) == grapheme_index(emojis_view(es@)),
{
    let ghost ev = emojis_view(es@);
    let mut idx: Vec<(String, String)> = Vec::new();
    let mut i: usize = 0;
    proof {
        assert(ev.subrange(0, 0) =~= Seq::<EmojiView>::empty());
        assert(pairs_view(idx@) =~= Seq::<(Seq<char>, Seq<char>)>::empty());
    }
    while i < es.len()
        invariant
            i <= es@.len(),
            ev == emojis_view(es@),
            forall|k: int| 0 <= k < es@.len() ==> (#[trigger] es@[k]).wf(),
            pairs_view(idx@) == grapheme_index(ev.subrange(0, i as int)),
        decreases es@.len() - i,
    {
        let e = &es[i];
        assert(e.wf());
        let full = e.full_emoji_list();
        let ghost fv = variants_view(full@);
        let ghost start = pairs_view(idx@);
        let mut j: usize = 0;
        proof {
            assert(fv.subrange(0, 0) =~= Seq::<VariantView>::empty());
        }
        while j < full.len()
            invariant
                j <= full@.len(),
                fv == variants_view(full@),
                pairs_view(idx@) == index_variants(start, fv.subrange(0, j as int), e.identifier@),
            decreases full@.len() - j,
        {
            proof {
                assert(fv.subrange(0, j + 1).drop_last() =~= fv.subrange(0, j as int));
                assert(fv[j as int] == full@[j as int]@);
            }
            match find_key(&idx, &full[j].grapheme) {
                Some(_) => {},
                None => {
                    let ghost before = idx@;
                    idx.push((full[j].grapheme.clone(), e.identifier.clone()));
                    proof {
                        assert(pairs_view(idx@) =~= pairs_view(before).push(
                            (full@[j as int].grapheme@, e.identifier@),
                        ));
                    }
                },
            }
            j = j + 1;
        }
        proof {
            assert(fv.subrange(0, full@.len() as int) =~= fv);
            assert(ev.subrange(0, i + 1).drop_last() =~= ev.subrange(0, i as int));
            assert(ev[i as int] == e@);
        }
        i = i + 1;
    }
    proof {
        assert(ev.subrange(0, es@.len() as int) =~= ev);
    }
    idx
}

/// The primary aliases of a run of emoji; `None` where two emoji give the
/// same alias.
pub fn build_primaries(es: &Vec<Emoji>) -> (r: Option<Vec<(String, String)>>)
    requires
        forall|k: int| 0 <= k < es@.len() ==> (#[trigger] es@[k]).wf(),
    ensures
        match r {
            Some(t) => primary_aliases(emojis_view(es@)) == Some(pairs_view(t@)),
            None => primary_aliases(emojis_view(es@)) is None,
        },
{
    let ghost ev = emojis_view(es@);
    let mut t: Vec<(String, String)> = Vec::new();
    let mut i: usize = 0;
    proof {
        assert(ev.subrange(0, 0) =~= Seq::<EmojiView>::empty());
        assert(pairs_view(t@) =~= Seq::<(Seq<char>, Seq<char>)>::empty());
    }
    while i < es.len()
        invariant
            i <= es@.len(),
            ev == emojis_view(es@),
            forall|k: int| 0 <= k < es@.len() ==> (#[trigger] es@[k]).wf(),
            primary_aliases(ev.subrange(0, i as int)) == Some(pairs_view(t@)),
        decreases es@.len() - i,
    {
        let e = &es[i];
        proof {
            assert(ev.subrange(0, i + 1).drop_last() =~= ev.subrange(0, i as int));
            assert(ev[i as int] == e@);
            assert(e.wf());
        }
        let d = e.default_grapheme();
        if d.is_some() {
            let a = primary_alias(e.identifier.as_str());
            match find_key(&t, &a) {
                Some(_) => {
                    proof {
                        assert(default_grapheme_of(e@.variants) is Some);
                        assert(primary_aliases(ev.subrange(0, i + 1)) is None);
                        assert(ev.subrange(0, es@.len() as int) =~= ev);
                        lemma_primaries_none_stays(ev, i as int + 1, es@.len() as int);
                    }
                    return None;
                },
                None => {
                    let ghost before = t@;
                    t.push((a, e.identifier.clone()));
                    proof {
                        assert(pairs_view(t@) =~= pairs_view(before).push(
                            (primary_alias_for(e.identifier@), e.identifier@),
                        ));
                    }
                },
            }
        }
        i = i + 1;
    }
    proof {
        assert(ev.subrange(0, es@.len() as int) =~= ev);
    }
    Some(t)
}

proof fn lemma_primaries_none_stays(es: Seq<EmojiView>, m: int, n: int)
    requires
        1 <= m <= n <= es.len(),
        primary_aliases(es.subrange(0, m)) is None,
    ensures
        primary_aliases(es.subrange(0, n)) is None,
    decreases n - m,
{
    if m < n {
        lemma_primaries_none_stays(es, m, n - 1);
        assert(es.subrange(0, n).drop_last() =~= es.subrange(0, n - 1));
    }
}

/// Merges outside aliases into the table; gives back the entries whose
/// grapheme is not indexed.
pub fn merge_aliases(
    table: &mut Vec<(String, String)>,
    idx: &Vec<(String, String)>,
    ext: &Vec<(String, String)>,
) -> (r: Vec<(String, String)>)
    ensures
        (pairs_view(final(table)@), pairs_view(r@)) == merge_external(
            pairs_view(old(table)@),
            pairs_view(idx@),
            pairs_view(ext@),
        ),
{
    let ghost t0 = pairs_view(table@);
    let ghost iv = pairs_view(idx@);
    let ghost xv = pairs_view(ext@);
    let mut unresolved: Vec<(String, String)> = Vec::new();
    let mut i: usize = 0;
    proof {
        assert(xv.subrange(0, 0) =~= Seq::<(Seq<char>, Seq<char>)>::empty());
        assert(pairs_view(unresolved@) =~= Seq::<(Seq<char>, Seq<char>)>::empty());
    }
    while i < ext.len()
        invariant
            i <= ext@.len(),
            iv == pairs_view(idx@),
            xv == pairs_view(ext@),
            (pairs_view(table@), pairs_view(unresolved@)) == merge_external(t0, iv, xv.subrange(0, i as int)),
        decreases ext@.len() - i,
    {
        proof {
            assert(xv.subrange(0, i + 1).drop_last() =~= xv.subrange(0, i as int));
            assert(xv[i as int] == (ext@[i as int].0@, ext@[i as int].1@));
        }
        let key = &ext[i].0;
        let g = &ext[i].1;
        match find_key(table, key) {
            Some(_) => {},
            None => {
                match find_key(idx, g) {
                    Some(j) => {
                        let ghost before = table@;
                        table.push((key.clone(), idx[j].1.clone()));
                        proof {
                            assert(pairs_view(table@) =~= pairs_view(before).push((key@, iv[j as int].1)));
                        }
                    },
                    None => {
                        let ghost before = unresolved@;
                        unresolved.push((key.clone(), g.clone()));
                        proof {
                            assert(pairs_view(unresolved@) =~= pairs_view(before).push((key@, g@)));
                        }
                    },
                }
            },
        }
        i = i + 1;
    }
    proof {
        assert(xv.subrange(0, ext@.len() as int) =~= xv);
    }
    unresolved
}

/// The alias table, sorted by alias, and the outside entries that could not
/// be resolved, in the order given.
pub struct AliasTable {
    pub aliases: Vec<(String, String)>,
    pub unresolved: Vec<(String, String)>,
}

/// Why no alias table can be built.
#[derive(Clone, Copy, Debug, PartialEq, Eq, Structural)]
pub enum AliasError {
    /// Two emoji of the catalog give the same primary alias.
    DuplicateAlias,
}

/// The unsorted alias table and the unresolved entries for a catalog and an
/// outside dataset; `None` where two emoji give the same primary alias.
pub open spec fn alias_entries(gs: Seq<GroupView>, ext: Seq<(Seq<char>, Seq<char>)>) -> Option<
    (Seq<(Seq<char>, Seq<char>)>, Seq<(Seq<char>, Seq<char>)>),
> {
    let es = emojis_of_groups(gs);
    match primary_aliases(es) {
        None => None,
        Some(p) => Some(merge_external(p, grapheme_index(es), ext)),
    }
}

/// Builds the alias table of a catalog: each emoji's primary alias, then
/// each outside alias whose key is new and whose grapheme the catalog
/// knows, sorted by alias.
pub fn generate_aliases(cat: &Catalog, external: &Vec<(String, String)>) -> (r: Result<
    AliasTable,
    AliasError,
>)
    requires
        catalog_wf(cat@),
    ensures
        match alias_entries(cat@, pairs_view(external@)) {
            None => r == Err::<AliasTable, AliasError>(AliasError::DuplicateAlias),
            Some((t, u)) => r matches Ok(tbl) && pairs_view(tbl.aliases@).to_multiset() == t.to_multiset()
                && sorted_by_key(pairs_view(tbl.aliases@)) && keys_unique(t) && pairs_view(
                tbl.unresolved@,
            ) == u,
        },
{
    let es = all_emojis(cat);
    let idx = build_index(&es);
    match build_primaries(&es) {
        None => Err(AliasError::DuplicateAlias),
        Some(mut table) => {
            proof {
                lemma_primaries_unique(emojis_view(es@));
                lemma_merge_unique(pairs_view(table@), pairs_view(idx@), pairs_view(external@));
            }
            let unresolved = merge_aliases(&mut table, &idx, external);
            sort_pairs(&mut table);
            Ok(AliasTable { aliases: table, unresolved })
        },
    }
}

proof fn lemma_push_unique(t: Seq<(Seq<char>, Seq<char>)>, p: (Seq<char>, Seq<char>))
    requires
        keys_unique(t),
        !has_key(t, p.0),
    ensures
        keys_unique(t.push(p)),
{
    let n = t.push(p);
    assert forall|i: int, j: int| 0 <= i < j < n.len() implies (#[trigger] n[i]).0 != (#[trigger] n[j]).0 by {
        assert(n[i] == t[i]);
        if j < t.len() {
            assert(n[j] == t[j]);
        }
    }
}

proof fn lemma_primaries_unique(es: Seq<EmojiView>)
    ensures
        primary_aliases(es) matches Some(p) ==> keys_unique(p),
    decreases es.len(),
{
    if es.len() > 0 {
        lemma_primaries_unique(es.drop_last());
        if let Some(prev) = primary_aliases(es.drop_last()) {
            let e = es.last();
            let a = primary_alias_for(e.identifier);
            if default_grapheme_of(e.variants) is Some && !has_key(prev, a) {
                lemma_push_unique(prev, (a, e.identifier));
            }
        }
    }
}

proof fn lemma_merge_unique(
    table: Seq<(Seq<char>, Seq<char>)>,
    idx: Seq<(Seq<char>, Seq<char>)>,
    ext: Seq<(Seq<char>, Seq<char>)>,
)
    requires
        keys_unique(table),
    ensures
        keys_unique(merge_external(table, idx, ext).0),
    decreases ext.len(),
{
    if ext.len() > 0 {
        lemma_merge_unique(table, idx, ext.drop_last());
        let (t, u) = merge_external(table, idx, ext.drop_last());
        let (k, g) = ext.last();
        if !has_key(t, k) {
            if let Some(id) = lookup(idx, g) {
                lemma_push_unique(t, (k, id));
            }
        }
    }
}

proof fn lemma_text_le_reflexive(a: Seq<char>)
    ensures
        text_le(a, a),
    decreases a.len(),
{
    if a.len() > 0 {
        lemma_text_le_reflexive(a.drop_first());
    }
}

proof fn lemma_text_le_antisymmetric(a: Seq<char>, b: Seq<char>)
    requires
        text_le(a, b),
        text_le(b, a),
    ensures
        a == b,
    decreases a.len(),
{
    if a.len() > 0 && b.len() > 0 {
        lemma_text_le_antisymmetric(a.drop_first(), b.drop_first());
        assert(a[0] == b[0]);
        assert(a =~= seq![a[0]] + a.drop_first());
        assert(b =~= seq![b[0]] + b.drop_first());
    } else {
        assert(a =~= b);
    }
}

/// Two tables that hold the same entries, with unique aliases, both sorted
/// by alias, are identical in order and content.
pub proof fn lemma_sorted_table_unique(a: Seq<(Seq<char>, Seq<char>)>, b: Seq<(Seq<char>, Seq<char>)>)
    requires
        keys_unique(a),
        sorted_by_key(a),
        sorted_by_key(b),
        a.to_multiset() == b.to_multiset(),
    ensures
        a == b,
    decreases a.len(),
{
    broadcast use vstd::seq_lib::group_to_multiset_ensures;

    assert(a.len() == a.to_multiset().len());
    assert(b.len() == b.to_multiset().len());
    if a.len() > 0 {
        assert(a.to_multiset().count(a[0]) > 0);
        assert(b.contains(a[0]));
        let j = choose|j: int| 0 <= j < b.len() && b[j] == a[0];
        assert(b.to_multiset().count(b[0]) > 0);
        assert(a.contains(b[0]));
        let i = choose|i: int| 0 <= i < a.len() && a[i] == b[0];
        if j > 0 {
            assert(text_le(b[0].0, b[j].0));
        }
        if i > 0 {
            assert(text_le(a[0].0, a[i].0));
        }
        lemma_text_le_reflexive(a[0].0);
        lemma_text_le_antisymmetric(a[0].0, b[0].0);
        if i > 0 {
            assert(a[0].0 != a[i].0);
        }
        assert(a[0] == b[0]);
        let a2 = a.drop_first();
        let b2 = b.drop_first();
        assert(a2 =~= a.remove(0));
        assert(b2 =~= b.remove(0));
        assert(a2.to_multiset() == b2.to_multiset());
        assert forall|x: int, y: int| 0 <= x < y < a2.len() implies (#[trigger] a2[x]).0 != (#[trigger] a2[y]).0 by {
            assert(a[x + 1].0 != a[y + 1].0);
        }
        assert forall|x: int, y: int| 0 <= x < y < a2.len() implies text_le(#[trigger] a2[x].0, #[trigger] a2[y].0) by {
            assert(text_le(a[x + 1].0, a[y + 1].0));
        }
        assert forall|x: int, y: int| 0 <= x < y < b2.len() implies text_le(#[trigger] b2[x].0, #[trigger] b2[y].0) by {
            assert(text_le(b[x + 1].0, b[y + 1].0));
        }
        lemma_sorted_table_unique(a2, b2);
        assert forall|x: int| 0 <= x < a.len() implies a[x] == b[x] by {
            if x > 0 {
                assert(a[x] == a2[x - 1]);
                assert(b[x] == b2[x - 1]);
            }
        }
        assert(a =~= b);
    } else {
        assert(a =~= b);
    }
}

proof fn lemma_merge_keeps_table(
    table: Seq<(Seq<char>, Seq<char>)>,
    idx: Seq<(Seq<char>, Seq<char>)>,
    ext: Seq<(Seq<char>, Seq<char>)>,
)
    ensures
        merge_external(table, idx, ext).0.len() >= table.len(),
        merge_external(table, idx, ext).0.subrange(0, table.len() as int) == table,
        forall|i: int|
            0 <= i < merge_external(table, idx, ext).1.len() ==> !has_key(
                table,
                (#[trigger] merge_external(table, idx, ext).1[i]).0,
            ),
    decreases ext.len(),
{
    if ext.len() > 0 {
        lemma_merge_keeps_table(table, idx, ext.drop_last());
        let (t, u) = merge_external(table, idx, ext.drop_last());
        let (k, g) = ext.last();
        if !has_key(t, k) {
            assert(t.push((k, lookup(idx, g)->0)).subrange(0, table.len() as int) =~= t.subrange(0, table.len() as int));
            if lookup(idx, g) is None {
                let u2 = u.push((k, g));
                assert forall|i: int| 0 <= i < u2.len() implies !has_key(table, (#[trigger] u2[i]).0) by {
                    if i < u.len() {
                        assert(u2[i] == u[i]);
                    } else if has_key(table, k) {
                        let c = choose|c: int| 0 <= c < table.len() && (#[trigger] table[c]).0 == k;
                        assert(t.subrange(0, table.len() as int)[c] == t[c]);
                        assert(t[c].0 == k);
                    }
                }
            }
        }
    } else {
        assert(table.subrange(0, table.len() as int) =~= table);
    }
}

/// A primary alias wins over an outside alias with the same key: the key
/// keeps the primary alias's identifier, and it is not reported as
/// unresolved.
pub proof fn lemma_primary_alias_precedence(
    primaries: Seq<(Seq<char>, Seq<char>)>,
    idx: Seq<(Seq<char>, Seq<char>)>,
    ext: Seq<(Seq<char>, Seq<char>)>,
    key: Seq<char>,
)
    requires
        has_key(primaries, key),
    ensures
        lookup(merge_external(primaries, idx, ext).0, key) == lookup(primaries, key),
        forall|i: int|
            0 <= i < merge_external(primaries, idx, ext).1.len() ==> (#[trigger] merge_external(
                primaries,
                idx,
                ext,
            ).1[i]).0 != key,
{
    lemma_merge_keeps_table(primaries, idx, ext);
    let t = merge_external(primaries, idx, ext).0;
    let n = primaries.len() as int;
    let c = choose|c: int| 0 <= c < n && (#[trigger] primaries[c]).0 == key;
    assert(primaries[c].0 == key);
    let f = lemma_first_key_exists(primaries, key, c);
    assert forall|j: int| 0 <= j <= f implies t[j] == primaries[j] by {
        assert(t.subrange(0, n)[j] == t[j]);
    }
    assert(is_first_key(t, key, f));
    lemma_first_key_lookup(t, key, f);
    lemma_first_key_lookup(primaries, key, f);
    assert forall|i: int| 0 <= i < merge_external(primaries, idx, ext).1.len() implies (
    #[trigger] merge_external(primaries, idx, ext).1[i]).0 != key by {
        assert(!has_key(primaries, merge_external(primaries, idx, ext).1[i].0));
    }
}

proof fn lemma_first_key_exists(t: Seq<(Seq<char>, Seq<char>)>, k: Seq<char>, c: int) -> (f: int)
    requires
        0 <= c < t.len(),
        t[c].0 == k,
    ensures
        is_first_key(t, k, f),
    decreases c,
{
    if exists|j: int| 0 <= j < c && t[j].0 == k {
        let j = choose|j: int| 0 <= j < c && t[j].0 == k;
        lemma_first_key_exists(t, k, j)
    } else {
        c
    }
}

proof fn lemma_first_key_lookup(t: Seq<(Seq<char>, Seq<char>)>, k: Seq<char>, f: int)
    requires
        is_first_key(t, k, f),
    ensures
        lookup(t, k) == Some(t[f].1),
{
    let c = choose|c: int| is_first_key(t, k, c);
    if c < f {
        assert(t[c].0 != k);
    } else if c > f {
        assert(t[f].0 != k);
    }
}

proof fn lemma_permutation_keys_unique(t: Seq<(Seq<char>, Seq<char>)>, a: Seq<(Seq<char>, Seq<char>)>)
    requires
        keys_unique(t),
        a.to_multiset() == t.to_multiset(),
    ensures
        keys_unique(a),
{
    broadcast use vstd::seq_lib::group_to_multiset_ensures;

    assert(t.no_duplicates()) by {
        assert forall|i: int, j: int| 0 <= i < t.len() && 0 <= j < t.len() && i != j implies t[i] != t[j] by {
            if i < j {
                assert(t[i].0 != t[j].0);
            } else {
                assert(t[j].0 != t[i].0);
            }
        }
    }
    t.lemma_multiset_has_no_duplicates();
    a.lemma_multiset_has_no_duplicates_conv();
    assert forall|x: int, y: int| 0 <= x < y < a.len() implies (#[trigger] a[x]).0 != (#[trigger] a[y]).0 by {
        assert(a[x] != a[y]);
        assert(a.to_multiset().count(a[x]) > 0);
        assert(a.to_multiset().count(a[y]) > 0);
        assert(t.contains(a[x]));
        assert(t.contains(a[y]));
        let p = choose|p: int| 0 <= p < t.len() && t[p] == a[x];
        let q = choose|q: int| 0 <= q < t.len() && t[q] == a[y];
        if p < q {
            assert(t[p].0 != t[q].0);
        } else if q < p {
            assert(t[q].0 != t[p].0);
        }
    }
}

/// Building the alias table is deterministic: two tables that hold the
/// entries of the same unsorted table, whose aliases are unique, each sorted
/// by alias, are identical in order and content.
pub proof fn lemma_alias_table_deterministic(
    t: Seq<(Seq<char>, Seq<char>)>,
    a: Seq<(Seq<char>, Seq<char>)>,
    b: Seq<(Seq<char>, Seq<char>)>,
)
    requires
        keys_unique(t),
        a.to_multiset() == t.to_multiset(),
        b.to_multiset() == t.to_multiset(),
        sorted_by_key(a),
        sorted_by_key(b),
    ensures
        a == b,
{
    lemma_permutation_keys_unique(t, a);
    lemma_sorted_table_unique(a, b);
}

proof fn lemma_lookup_push(t: Seq<(Seq<char>, Seq<char>)>, x: (Seq<char>, Seq<char>), k: Seq<char>)
    requires
        lookup(t, k) is Some,
    ensures
        lookup(t.push(x), k) == lookup(t, k),
{
    let f = choose|f: int| is_first_key(t, k, f);
    lemma_first_key_lookup(t, k, f);
    assert(is_first_key(t.push(x), k, f));
    lemma_first_key_lookup(t.push(x), k, f);
}

/// Each emoji with a default grapheme has its primary alias in the primary
/// table, pointing at its own identifier.
pub proof fn lemma_primary_alias_of_emoji(es: Seq<EmojiView>, k: int)
    requires
        primary_aliases(es) is Some,
        0 <= k < es.len(),
        default_grapheme_of(es[k].variants) is Some,
    ensures
        lookup(primary_aliases(es)->0, primary_alias_for(es[k].identifier)) == Some(es[k].identifier),
    decreases es.len(),
{
    let d = es.drop_last();
    let prev = primary_aliases(d)->0;
    let e = es.last();
    let a = primary_alias_for(e.identifier);
    if k < es.len() - 1 {
        assert(d[k] == es[k]);
        lemma_primary_alias_of_emoji(d, k);
        if default_grapheme_of(e.variants) is Some {
            lemma_lookup_push(prev, (a, e.identifier), primary_alias_for(es[k].identifier));
        }
    } else {
        let t = prev.push((a, e.identifier));
        assert forall|j: int| 0 <= j < prev.len() implies t[j].0 != a by {
            assert(t[j] == prev[j]);
        }
        assert(is_first_key(t, a, prev.len() as int));
        lemma_first_key_lookup(t, a, prev.len() as int);
    }
}

/// A primary alias wins in the built table: for every emoji of the catalog
/// with a default grapheme, its primary alias maps to its own identifier,
/// whatever the outside dataset says of that key, and the key is never
/// reported as unresolved.
pub proof fn lemma_emoji_primary_alias_wins(gs: Seq<GroupView>, ext: Seq<(Seq<char>, Seq<char>)>, k: int)
    requires
        alias_entries(gs, ext) is Some,
        0 <= k < emojis_of_groups(gs).len(),
        default_grapheme_of(emojis_of_groups(gs)[k].variants) is Some,
    ensures
        ({
            let e = emojis_of_groups(gs)[k];
            let (t, u) = alias_entries(gs, ext)->0;
            &&& lookup(t, primary_alias_for(e.identifier)) == Some(e.identifier)
            &&& forall|i: int| 0 <= i < u.len() ==> (#[trigger] u[i]).0 != primary_alias_for(e.identifier)
        }),
{
    let es = emojis_of_groups(gs);
    let e = es[k];
    let p = primary_aliases(es)->0;
    let a = primary_alias_for(e.identifier);
    lemma_primary_alias_of_emoji(es, k);
    let f = choose|f: int| is_first_key(p, a, f);
    assert(has_key(p, a)) by {
        assert(p[f].0 == a);
    }
    lemma_primary_alias_precedence(p, grapheme_index(es), ext, a);
}

} // verus!
