//! The structured data handed to rendering: per group, subgroup and emoji,
//! the identifier, a preview, and for each emoji its accessor lists.
use crate::catalog::{catalog_wf, group_wf, subgroup_wf, Catalog, GroupView, Subgroup, SubgroupView};
use crate::emoji::{default_list, full_list, variants_view, Emoji, EmojiView, Variant};
use crate::preview::{
    concat, emojis_for_group, emojis_for_subgroup, group_preview, join, subgroup_preview_list,
    take_preview, PREVIEW_LEN,
};
use vstd::prelude::*;

verus! {

pub struct EmojiConstant {
    pub identifier: String,
    pub preview_emojis: String,
    pub full_list: Vec<Variant>,
    pub default_list: Vec<Variant>,
}

pub struct SubgroupConstant {
    pub identifier: String,
    pub preview_emojis: String,
    pub emojis: Vec<EmojiConstant>,
}

pub struct GroupedConstant {
    pub identifier: String,
    pub preview_emojis: String,
    pub subgroups: Vec<SubgroupConstant>,
}

/// The preview of an emoji: the graphemes of the first entries of its full
/// list, as one text.
pub open spec fn emoji_preview(e: EmojiView) -> Seq<char> {
    concat(take_preview(full_list(e.variants)).map_values(|v: crate::emoji::VariantView| v.grapheme))
}

pub open spec fn emoji_constant_matches(c: EmojiConstant, e: EmojiView) -> bool {
    &&& c.identifier@ == e.identifier
    &&& c.preview_emojis@ == emoji_preview(e)
    &&& variants_view(c.full_list@) == full_list(e.variants)
    &&& variants_view(c.default_list@) == default_list(e.variants)
}

pub open spec fn subgroup_constant_matches(c: SubgroupConstant, s: SubgroupView) -> bool {
    &&& c.identifier@ == s.identifier
    &&& c.preview_emojis@ == concat(subgroup_preview_list(s))
    &&& c.emojis@.len() == s.emojis.len()
    &&& forall|k: int| 0 <= k < s.emojis.len() ==> emoji_constant_matches(#[trigger] c.emojis@[k], s.emojis[k])
}

pub open spec fn group_constant_matches(c: GroupedConstant, g: GroupView) -> bool {
    &&& c.identifier@ == g.identifier
    &&& c.preview_emojis@ == group_preview(g)
    &&& c.subgroups@.len() == g.subgroups.len()
    &&& forall|k: int|
        0 <= k < g.subgroups.len() ==> subgroup_constant_matches(#[trigger] c.subgroups@[k], g.subgroups[k])
}

/// The constant data of one emoji.
pub fn emoji_constant(e: &Emoji) -> (r: EmojiConstant)
    requires
        e.wf(),
    ensures
        emoji_constant_matches(r, e@),
{
    let full = e.full_emoji_list();
    let default = e.default_emoji_list();
    let ghost fv = variants_view(full@);
    let n: usize = if full.len() > PREVIEW_LEN { PREVIEW_LEN } else { full.len() };
    let mut parts: Vec<String> = Vec::new();
    let mut k: usize = 0;
    while k < n
        invariant
            k <= n,
            n <= full@.len(),
            fv == variants_view(full@),
            parts@.len() == k,
            forall|j: int| 0 <= j < k ==> (#[trigger] parts@[j])@ == fv[j].grapheme,
        decreases n - k,
    {
        assert(fv[k as int] == full@[k as int]@);
        parts.push(full[k].grapheme.clone());
        k = k + 1;
    }
    let preview = join(&parts);
    proof {
        let gs = take_preview(fv).map_values(|v: crate::emoji::VariantView| v.grapheme);
        assert(crate::preview::strings_view(parts@) =~= gs);
    }
    EmojiConstant { identifier: e.identifier.clone(), preview_emojis: preview, full_list: full, default_list: default }
}

/// The constant data of one subgroup and its emoji.
pub fn subgroup_constant(s: &Subgroup) -> (r: SubgroupConstant)
    requires
        subgroup_wf(s@),
    ensures
        subgroup_constant_matches(r, s@),
{
    let mut emojis: Vec<EmojiConstant> = Vec::new();
    let mut k: usize = 0;
    while k < s.emojis.len()
        invariant
            k <= s.emojis@.len(),
            subgroup_wf(s@),
            emojis@.len() == k,
            forall|j: int| 0 <= j < k ==> emoji_constant_matches(#[trigger] emojis@[j], s@.emojis[j]),
        decreases s.emojis@.len() - k,
    {
        assert(s@.emojis[k as int] == s.emojis@[k as int]@);
        assert(variants_wf_at(s@, k as int));
        emojis.push(emoji_constant(&s.emojis[k]));
        k = k + 1;
    }
    SubgroupConstant { identifier: s.identifier.clone(), preview_emojis: emojis_for_subgroup(s), emojis }
}

spec fn variants_wf_at(s: SubgroupView, k: int) -> bool {
    crate::emoji::variants_wf(s.emojis[k].variants)
}

/// The constant data of the whole catalog, group by group.
pub fn generate_constants(cat: &Catalog) -> (r: Vec<GroupedConstant>)
    requires
        catalog_wf(cat@),
    ensures
        r@.len() == cat@.len(),
        forall|i: int| 0 <= i < cat@.len() ==> group_constant_matches(#[trigger] r@[i], cat@[i]),
{
    let mut out: Vec<GroupedConstant> = Vec::new();
    let mut i: usize = 0;
    while i < cat.groups.len()
        invariant
            i <= cat.groups@.len(),
            catalog_wf(cat@),
            out@.len() == i,
            forall|j: int| 0 <= j < i ==> group_constant_matches(#[trigger] out@[j], cat@[j]),
        decreases cat.groups@.len() - i,
    {
        let g = &cat.groups[i];
        assert(cat@[i as int] == g@);
        assert(group_wf(g@));
        let mut subs: Vec<SubgroupConstant> = Vec::new();
        let mut k: usize = 0;
        while k < g.subgroups.len()
            invariant
                k <= g.subgroups@.len(),
                group_wf(g@),
                subs@.len() == k,
                forall|j: int| 0 <= j < k ==> subgroup_constant_matches(#[trigger] subs@[j], g@.subgroups[j]),
            decreases g.subgroups@.len() - k,
        {
            assert(g@.subgroups[k as int] == g.subgroups@[k as int]@);
            assert(subgroup_wf(g@.subgroups[k as int]));
            subs.push(subgroup_constant(&g.subgroups[k]));
            k = k + 1;
        }
        out.push(GroupedConstant { identifier: g.identifier.clone(), preview_emojis: emojis_for_group(g), subgroups: subs });
        i = i + 1;
    }
    out
}

} // verus!
