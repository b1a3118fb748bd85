//! Short previews of subgroups and groups: the first few default graphemes.
use crate::catalog::{group_wf, subgroup_wf, Group, GroupView, Subgroup, SubgroupView};
use crate::emoji::{default_grapheme_of, EmojiView};
use vstd::prelude::*;

verus! {

/// How many graphemes a preview shows.
pub const PREVIEW_LEN: usize = 3;

pub open spec fn take_preview<T>(s: Seq<T>) -> Seq<T> {
    if s.len() > PREVIEW_LEN {
        s.subrange(0, PREVIEW_LEN as int)
    } else {
        s
    }
}

/// The default graphemes of a run of emoji, skipping those without one.
pub open spec fn defaults_of(es: Seq<EmojiView>) -> Seq<Seq<char>>
    decreases es.len(),
{
    if es.len() == 0 {
        Seq::empty()
    } else {
        defaults_of(es.drop_last()) + match default_grapheme_of(es.last().variants) {
            Some(g) => seq![g],
            None => Seq::empty(),
        }
    }
}

/// The preview list of a subgroup: the first default graphemes of its emoji.
pub open spec fn subgroup_preview_list(s: SubgroupView) -> Seq<Seq<char>> {
    take_preview(defaults_of(s.emojis))
}

pub open spec fn concat(xs: Seq<Seq<char>>) -> Seq<char>
    decreases xs.len(),
{
    if xs.len() == 0 {
        Seq::empty()
    } else {
        concat(xs.drop_last()) + xs.last()
    }
}

/// The first preview grapheme of each subgroup that has one.
pub open spec fn firsts(ss: Seq<SubgroupView>) -> Seq<Seq<char>>
    decreases ss.len(),
{
    if ss.len() == 0 {
        Seq::empty()
    } else {
        firsts(ss.drop_last()) + if subgroup_preview_list(ss.last()).len() > 0 {
            seq![subgroup_preview_list(ss.last())[0]]
        } else {
            Seq::empty()
        }
    }
}

/// The preview of a group: the first preview grapheme of each of its first
/// subgroups.
pub open spec fn group_preview(g: GroupView) -> Seq<char> {
    concat(firsts(take_preview(g.subgroups)))
}

pub open spec fn strings_view(v: Seq<String>) -> Seq<Seq<char>> {
    v.map_values(|s: String| s@)
}

/// The first default graphemes of a subgroup's emoji.
pub fn emojis_for_sub_group_list(sub: &Subgroup) -> (r: Vec<String>)
    requires
        subgroup_wf(sub@),
    ensures
        strings_view(r@) == subgroup_preview_list(sub@),
{
    let ghost es = sub@.emojis;
    let mut out: Vec<String> = Vec::new();
    let mut k: usize = 0;
    proof {
        assert(es.subrange(0, 0) =~= Seq::<EmojiView>::empty());
        assert(strings_view(out@) =~= take_preview(defaults_of(es.subrange(0, 0))));
    }
    while k < sub.emojis.len()
        invariant
            k <= sub.emojis@.len(),
            es == sub@.emojis,
            subgroup_wf(sub@),
            strings_view(out@) == take_preview(defaults_of(es.subrange(0, k as int))),
        decreases sub.emojis@.len() - k,
    {
        let ghost before = defaults_of(es.subrange(0, k as int));
        proof {
            assert(es.subrange(0, k + 1).drop_last() =~= es.subrange(0, k as int));
            assert(es[k as int] == sub.emojis@[k as int]@);
        }
        let d = sub.emojis[k].default_grapheme();
        let ghost after = defaults_of(es.subrange(0, k + 1));
        match d {
            Some(g) => {
                proof {
                    assert(after == before + seq![g@]);
                }
                if out.len() < PREVIEW_LEN {
                    let ghost old_out = out@;
                    out.push(g);
                    proof {
                        assert(strings_view(out@) =~= strings_view(old_out).push(g@));
                        assert(take_preview(after) =~= take_preview(before) + seq![g@]);
                    }
                } else {
                    proof {
                        assert(take_preview(after) =~= take_preview(before));
                    }
                }
            },
            None => {
                proof {
                    assert(after =~= before);
                }
            },
        }
        k = k + 1;
    }
    proof {
        assert(es.subrange(0, sub.emojis@.len() as int) =~= es);
    }
    out
}

/// The preview of a subgroup: its preview list as one text.
pub fn emojis_for_subgroup(sub: &Subgroup) -> (r: String)
    requires
        subgroup_wf(sub@),
    ensures
        r@ == concat(subgroup_preview_list(sub@)),
{
    let list = emojis_for_sub_group_list(sub);
    join(&list)
}

/// All the texts, one after the other.
pub fn join(list: &Vec<String>) -> (r: String)
    ensures
        r@ == concat(strings_view(list@)),
{
    let ghost lv = strings_view(list@);
    let mut out = String::new();
    let mut k: usize = 0;
    proof {
        assert(lv.subrange(0, 0) =~= Seq::<Seq<char>>::empty());
    }
    while k < list.len()
        invariant
            k <= list@.len(),
            lv == strings_view(list@),
            out@ == concat(lv.subrange(0, k as int)),
        decreases list@.len() - k,
    {
        proof {
            assert(lv.subrange(0, k + 1).drop_last() =~= lv.subrange(0, k as int));
        }
        out.append(list[k].as_str());
        k = k + 1;
    }
    proof {
        assert(lv.subrange(0, list@.len() as int) =~= lv);
    }
    out
}

/// The preview of a group: the first preview grapheme of each of its first
/// subgroups, as one text.
pub fn emojis_for_group(grp: &Group) -> (r: String)
    requires
        group_wf(grp@),
    ensures
        r@ == group_preview(grp@),
{
    let ghost ss = take_preview(grp@.subgroups);
    let mut firsts_v: Vec<String> = Vec::new();
    let mut k: usize = 0;
    let n: usize = if grp.subgroups.len() > PREVIEW_LEN { PREVIEW_LEN } else { grp.subgroups.len() };
    proof {
        assert(ss.subrange(0, 0) =~= Seq::<SubgroupView>::empty());
        assert(strings_view(firsts_v@) =~= firsts(ss.subrange(0, 0)));
    }
    while k < n
        invariant
            k <= n,
            n == ss.len(),
            n <= grp.subgroups@.len(),
            ss == take_preview(grp@.subgroups),
            group_wf(grp@),
            strings_view(firsts_v@) == firsts(ss.subrange(0, k as int)),
        decreases n - k,
    {
        proof {
            assert(ss.subrange(0, k + 1).drop_last() =~= ss.subrange(0, k as int));
            assert(ss[k as int] == grp.subgroups@[k as int]@);
            assert(subgroup_wf(grp@.subgroups[k as int]));
        }
        let list = emojis_for_sub_group_list(&grp.subgroups[k]);
        if list.len() > 0 {
            let ghost old_v = firsts_v@;
            firsts_v.push(list[0].clone());
            proof {
                assert(strings_view(list@)[0] == list@[0]@);
                assert(strings_view(firsts_v@) =~= strings_view(old_v).push(list@[0]@));
            }
        }
        k = k + 1;
    }
    proof {
        assert(ss.subrange(0, n as int) =~= ss);
    }
    join(&firsts_v)
}

} // verus!
