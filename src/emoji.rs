//! The catalog's data model and the variant combinatorics of one emoji.
use vstd::prelude::*;

verus! {

/// No value on an axis.
pub const NONE: u8 = 0;

/// The highest skin tone code: light, medium-light, medium, medium-dark, dark
/// are the codes 1 to 5.
pub const MAX_TONE: u8 = 5;

/// The highest gender code of the first person slot: man, woman, person are
/// the codes 1 to 3.
pub const MAX_GENDER: u8 = 3;

/// The highest pair code: two males, two females, mixed are the codes 1 to 3.
pub const MAX_PAIR: u8 = 3;

/// The highest gender code of the second (child) slot: boy and girl are the
/// codes 1 and 2.
pub const MAX_CHILD_GENDER: u8 = 2;

/// The number of distinct valid modifier combinations.
pub const COMBO_COUNT: u16 = 1152;

/// The number of single-axis kinds: unmodified, then one kind per axis.
pub const KIND_COUNT: u8 = 6;

/// One modifier combination: a code on each axis, zero where the axis is
/// left unmodified. The axes, in declaration order: skin tone; gender and
/// pair of the first person slot; gender and pair of the second (child)
/// slot. A gender composes with a pair in either order: a gender first and
/// a child pair, or a pair first and a child gender.
#[derive(Clone, Copy, Debug, PartialEq, Eq, Structural)]
pub struct Combo {
    pub tone: u8,
    pub gender: u8,
    pub pair: u8,
    pub child_gender: u8,
    pub child_pair: u8,
}

impl Combo {
    pub open spec fn valid(self) -> bool {
        &&& self.tone <= MAX_TONE
        &&& self.gender <= MAX_GENDER
        &&& self.pair <= MAX_PAIR
        &&& self.child_gender <= MAX_CHILD_GENDER
        &&& self.child_pair <= MAX_PAIR
    }

    /// The canonical position of the combination: axes in declaration
    /// order, the unmodified value first on each axis.
    pub open spec fn rank(self) -> int {
        (((self.tone * 4 + self.gender) * 4 + self.pair) * 3 + self.child_gender) * 4
            + self.child_pair
    }

    /// How many axes the combination modifies.
    pub open spec fn axis_count(self) -> int {
        (if self.tone != NONE { 1int } else { 0 }) + (if self.gender != NONE { 1int } else { 0 })
            + (if self.pair != NONE { 1int } else { 0 }) + (if self.child_gender != NONE { 1int } else { 0 })
            + (if self.child_pair != NONE { 1int } else { 0 })
    }

    /// The single axis that the combination modifies: 0 for none, then 1 to
    /// 5 in axis declaration order; 6 where it modifies more than one.
    pub open spec fn kind(self) -> int {
        if self.axis_count() == 0 {
            0
        } else if self.axis_count() > 1 {
            6
        } else if self.tone != NONE {
            1
        } else if self.gender != NONE {
            2
        } else if self.pair != NONE {
            3
        } else if self.child_gender != NONE {
            4
        } else {
            5
        }
    }

    pub fn unmodified() -> (r: Combo)
        ensures
            r.valid(),
            r.axis_count() == 0,
            r.rank() == 0,
    {
        Combo { tone: NONE, gender: NONE, pair: NONE, child_gender: NONE, child_pair: NONE }
    }

    pub fn rank_of(&self) -> (r: u16)
        requires
            self.valid(),
        ensures
            r as int == self.rank(),
            r < COMBO_COUNT,
    {
        (((self.tone as u16 * 4 + self.gender as u16) * 4 + self.pair as u16) * 3
            + self.child_gender as u16) * 4 + self.child_pair as u16
    }

    pub fn kind_of(&self) -> (r: u8)
        ensures
            r as int == self.kind(),
    {
        let n: u8 = (if self.tone != NONE { 1u8 } else { 0 }) + (if self.gender != NONE { 1u8 } else { 0 })
            + (if self.pair != NONE { 1u8 } else { 0 }) + (if self.child_gender != NONE { 1u8 } else { 0 })
            + (if self.child_pair != NONE { 1u8 } else { 0 });
        if n == 0 {
            0
        } else if n > 1 {
            6
        } else if self.tone != NONE {
            1
        } else if self.gender != NONE {
            2
        } else if self.pair != NONE {
            3
        } else if self.child_gender != NONE {
            4
        } else {
            5
        }
    }
}

/// One recorded variant: its modifier combination, the full display name of
/// its source line, and its grapheme sequence.
pub struct Variant {
    pub combo: Combo,
    pub name: String,
    pub grapheme: String,
}

pub struct VariantView {
    pub combo: Combo,
    pub name: Seq<char>,
    pub grapheme: Seq<char>,
}

impl View for Variant {
    type V = VariantView;

    open spec fn view(&self) -> VariantView {
        VariantView { combo: self.combo, name: self.name@, grapheme: self.grapheme@ }
    }
}

impl Variant {
    pub fn duplicate(&self) -> (r: Variant)
        ensures
            r@ == self@,
    {
        Variant { combo: self.combo, name: self.name.clone(), grapheme: self.grapheme.clone() }
    }
}

pub open spec fn variants_view(vs: Seq<Variant>) -> Seq<VariantView> {
    vs.map_values(|v: Variant| v@)
}

/// Every combination is valid and no combination is recorded twice.
pub open spec fn variants_wf(vs: Seq<VariantView>) -> bool {
    &&& forall|i: int| 0 <= i < vs.len() ==> (#[trigger] vs[i]).combo.valid()
    &&& forall|i: int, j: int|
        0 <= i < j < vs.len() ==> (#[trigger] vs[i]).combo != (#[trigger] vs[j]).combo
}

pub open spec fn rank_key() -> spec_fn(VariantView) -> int {
    |v: VariantView| v.combo.rank()
}

pub open spec fn kind_key() -> spec_fn(VariantView) -> int {
    |v: VariantView| v.combo.kind()
}

pub open spec fn key_is(key: spec_fn(VariantView) -> int, r: int) -> spec_fn(VariantView) -> bool {
    |v: VariantView| key(v) == r
}

pub open spec fn key_below(key: spec_fn(VariantView) -> int, n: int) -> spec_fn(VariantView) -> bool {
    |v: VariantView| key(v) < n
}

pub open spec fn has_rank(r: int) -> spec_fn(VariantView) -> bool {
    key_is(rank_key(), r)
}

/// The combinations that modify at most one axis.
pub open spec fn single_axis() -> spec_fn(VariantView) -> bool {
    key_below(kind_key(), KIND_COUNT as int)
}

/// The entries of `vs` whose key is below `n`, grouped by key in increasing
/// order, each group in the order of `vs`.
pub open spec fn bucketed(vs: Seq<VariantView>, key: spec_fn(VariantView) -> int, n: int) -> Seq<
    VariantView,
>
    decreases n,
{
    if n <= 0 {
        Seq::empty()
    } else {
        bucketed(vs, key, n - 1) + vs.filter(key_is(key, n - 1))
    }
}

/// The variants whose rank is below `n`, in canonical order.
pub open spec fn full_upto(vs: Seq<VariantView>, n: int) -> Seq<VariantView> {
    bucketed(vs, rank_key(), n)
}

/// The full accessor list: every recorded combination, in canonical order.
pub open spec fn full_list(vs: Seq<VariantView>) -> Seq<VariantView> {
    full_upto(vs, COMBO_COUNT as int)
}

/// The default accessor list: the unmodified combination, then for each
/// axis in declaration order the combinations that modify that axis alone,
/// each axis in its canonical value order.
pub open spec fn default_list(vs: Seq<VariantView>) -> Seq<VariantView> {
    bucketed(full_list(vs), kind_key(), KIND_COUNT as int)
}

/// The default grapheme: the first entry of the full list, which is the
/// unmodified combination where that is recorded.
pub open spec fn default_grapheme_of(vs: Seq<VariantView>) -> Option<Seq<char>> {
    if full_list(vs).len() > 0 {
        Some(full_list(vs)[0].grapheme)
    } else {
        None
    }
}

pub open spec fn key_nonneg(key: spec_fn(VariantView) -> int) -> bool {
    forall|v: VariantView| #[trigger] key(v) >= 0
}

proof fn lemma_filter_negative(vs: Seq<VariantView>, key: spec_fn(VariantView) -> int)
    requires
        key_nonneg(key),
    ensures
        vs.filter(key_below(key, 0)).len() == 0,
    decreases vs.len(),
{
    reveal(Seq::filter);
    if vs.len() > 0 {
        lemma_filter_negative(vs.drop_last(), key);
        assert(key(vs.last()) >= 0);
    }
}

proof fn lemma_filter_split(vs: Seq<VariantView>, key: spec_fn(VariantView) -> int, n: int)
    requires
        n >= 0,
    ensures
        vs.filter(key_below(key, n + 1)).to_multiset() =~= vs.filter(key_below(key, n)).to_multiset().add(
            vs.filter(key_is(key, n)).to_multiset(),
        ),
    decreases vs.len(),
{
    reveal(Seq::filter);
    broadcast use vstd::seq_lib::group_to_multiset_ensures;

    if vs.len() > 0 {
        lemma_filter_split(vs.drop_last(), key, n);
    }
}

proof fn lemma_bucketed_multiset(vs: Seq<VariantView>, key: spec_fn(VariantView) -> int, n: int)
    requires
        n >= 0,
        key_nonneg(key),
    ensures
        bucketed(vs, key, n).to_multiset() =~= vs.filter(key_below(key, n)).to_multiset(),
    decreases n,
{
    broadcast use vstd::seq_lib::lemma_multiset_commutative;

    if n == 0 {
        lemma_filter_negative(vs, key);
        assert(vs.filter(key_below(key, 0)) =~= Seq::<VariantView>::empty());
    } else {
        lemma_bucketed_multiset(vs, key, n - 1);
        lemma_filter_split(vs, key, n - 1);
    }
}

proof fn lemma_rank_nonneg()
    ensures
        key_nonneg(rank_key()),
        key_nonneg(kind_key()),
{
}

proof fn lemma_filter_all(vs: Seq<VariantView>)
    requires
        forall|i: int| 0 <= i < vs.len() ==> (#[trigger] vs[i]).combo.valid(),
    ensures
        vs.filter(key_below(rank_key(), COMBO_COUNT as int)) == vs,
    decreases vs.len(),
{
    reveal(Seq::filter);
    if vs.len() > 0 {
        let d = vs.drop_last();
        assert forall|i: int| 0 <= i < d.len() implies (#[trigger] d[i]).combo.valid() by {
            assert(d[i] == vs[i]);
        }
        lemma_filter_all(d);
        assert(vs.last().combo.valid());
        assert(d.push(vs.last()) =~= vs);
    }
}

/// Every recorded (combination, grapheme) pair appears in the full list
/// exactly as often as among the recorded variants, and nothing else does.
pub proof fn lemma_full_list_complete(vs: Seq<VariantView>)
    requires
        forall|i: int| 0 <= i < vs.len() ==> (#[trigger] vs[i]).combo.valid(),
    ensures
        full_list(vs).to_multiset() =~= vs.to_multiset(),
{
    lemma_rank_nonneg();
    lemma_bucketed_multiset(vs, rank_key(), COMBO_COUNT as int);
    lemma_filter_all(vs);
}

proof fn lemma_filter_commute(
    vs: Seq<VariantView>,
    p: spec_fn(VariantView) -> bool,
    q: spec_fn(VariantView) -> bool,
)
    ensures
        vs.filter(p).filter(q) == vs.filter(q).filter(p),
    decreases vs.len(),
{
    reveal(Seq::filter);
    if vs.len() > 0 {
        lemma_filter_commute(vs.drop_last(), p, q);
        let a = vs.drop_last().filter(p);
        let b = vs.drop_last().filter(q);
        if p(vs.last()) {
            assert(a.push(vs.last()).drop_last() =~= a);
        }
        if q(vs.last()) {
            assert(b.push(vs.last()).drop_last() =~= b);
        }
    }
}


proof fn lemma_full_upto_filter(vs: Seq<VariantView>, n: int, p: spec_fn(VariantView) -> bool)
    ensures
        full_upto(vs, n).filter(p) == full_upto(vs.filter(p), n),
    decreases n,
{
    broadcast use Seq::filter_distributes_over_add;

    if n <= 0 {
        reveal(Seq::filter);
        assert(Seq::<VariantView>::empty().filter(p) =~= Seq::<VariantView>::empty());
    } else {
        lemma_full_upto_filter(vs, n - 1, p);
        lemma_filter_commute(vs, has_rank(n - 1), p);
    }
}

/// The default list is linear in the axes: it holds exactly the recorded
/// combinations that modify at most one axis, each once, so its length is
/// the number of those combinations and never a product over the axes.
pub proof fn lemma_default_list_linear(vs: Seq<VariantView>)
    requires
        forall|i: int| 0 <= i < vs.len() ==> (#[trigger] vs[i]).combo.valid(),
    ensures
        default_list(vs).to_multiset() =~= vs.filter(single_axis()).to_multiset(),
        default_list(vs).len() == vs.filter(single_axis()).len(),
{
    broadcast use vstd::seq_lib::group_to_multiset_ensures;

    let f = vs.filter(single_axis());
    lemma_rank_nonneg();
    lemma_bucketed_multiset(full_list(vs), kind_key(), KIND_COUNT as int);
    lemma_full_upto_filter(vs, COMBO_COUNT as int, single_axis());
    assert forall|i: int| 0 <= i < f.len() implies (#[trigger] f[i]).combo.valid() by {
        broadcast use vstd::seq_lib::group_filter_ensures;
        assert(f.contains(f[i]));
        vs.lemma_filter_contains_rev(single_axis(), f[i]);
    }
    lemma_full_list_complete(f);
    assert(default_list(vs).to_multiset().len() == f.to_multiset().len());
}

/// The value of a combination on axis `j` (1 to 5, in declaration order);
/// zero for `j == 0`, the unmodified kind.
pub open spec fn axis_value(c: Combo, j: int) -> int {
    if j == 1 {
        c.tone as int
    } else if j == 2 {
        c.gender as int
    } else if j == 3 {
        c.pair as int
    } else if j == 4 {
        c.child_gender as int
    } else if j == 5 {
        c.child_pair as int
    } else {
        0
    }
}

/// How many values kind `j` has: one for the unmodified kind, else the size
/// of axis `j`'s domain.
pub open spec fn kind_size(j: int) -> int {
    if j == 0 {
        1
    } else if j == 1 {
        MAX_TONE as int
    } else if j == 2 {
        MAX_GENDER as int
    } else if j == 3 {
        MAX_PAIR as int
    } else if j == 4 {
        MAX_CHILD_GENDER as int
    } else {
        MAX_PAIR as int
    }
}

pub open spec fn kind_lo(j: int) -> int {
    if j == 0 {
        0
    } else {
        1
    }
}

/// Whether any recorded combination modifies axis `j`.
pub open spec fn axis_active(vs: Seq<VariantView>, j: int) -> bool {
    exists|i: int| 0 <= i < vs.len() && axis_value(#[trigger] vs[i].combo, j) != 0
}

pub open spec fn kind_values(vs: Seq<VariantView>, j: int) -> Set<int>
    decreases vs.len(),
{
    if vs.len() == 0 {
        Set::empty()
    } else if vs.last().combo.kind() == j {
        kind_values(vs.drop_last(), j).insert(axis_value(vs.last().combo, j))
    } else {
        kind_values(vs.drop_last(), j)
    }
}

proof fn lemma_kind_values(vs: Seq<VariantView>, j: int)
    requires
        variants_wf(vs),
        0 <= j < KIND_COUNT,
    ensures
        kind_values(vs, j).finite(),
        vs.filter(key_is(kind_key(), j)).len() == kind_values(vs, j).len(),
        forall|x: int| #[trigger] kind_values(vs, j).contains(x) ==> exists|i: int|
            0 <= i < vs.len() && vs[i].combo.kind() == j && axis_value(#[trigger] vs[i].combo, j) == x,
    decreases vs.len(),
{
    reveal(Seq::filter);
    if vs.len() > 0 {
        let d = vs.drop_last();
        assert(variants_wf(d)) by {
            assert forall|k: int| 0 <= k < d.len() implies (#[trigger] d[k]).combo.valid() by {
                assert(d[k] == vs[k]);
            }
            assert forall|k: int, l: int| 0 <= k < l < d.len() implies (#[trigger] d[k]).combo != (#[trigger] d[l]).combo by {
                assert(d[k] == vs[k] && d[l] == vs[l]);
            }
        }
        lemma_kind_values(d, j);
        let c = vs.last().combo;
        if c.kind() == j {
            let x = axis_value(c, j);
            if kind_values(d, j).contains(x) {
                let i = choose|i: int| 0 <= i < d.len() && d[i].combo.kind() == j && axis_value(#[trigger] d[i].combo, j) == x;
                assert(d[i] == vs[i]);
                assert(vs[i].combo != c);
                assert(false);
            }
            assert forall|y: int| #[trigger] kind_values(vs, j).contains(y) implies exists|i: int|
                0 <= i < vs.len() && vs[i].combo.kind() == j && axis_value(#[trigger] vs[i].combo, j) == y by {
                if y == x {
                    assert(axis_value(vs[vs.len() - 1].combo, j) == y);
                } else {
                    let i = choose|i: int| 0 <= i < d.len() && d[i].combo.kind() == j && axis_value(#[trigger] d[i].combo, j) == y;
                    assert(d[i] == vs[i]);
                }
            }
        } else {
            assert forall|y: int| #[trigger] kind_values(vs, j).contains(y) implies exists|i: int|
                0 <= i < vs.len() && vs[i].combo.kind() == j && axis_value(#[trigger] vs[i].combo, j) == y by {
                let i = choose|i: int| 0 <= i < d.len() && d[i].combo.kind() == j && axis_value(#[trigger] d[i].combo, j) == y;
                assert(d[i] == vs[i]);
            }
        }
    }
}

proof fn lemma_kind_count_bound(vs: Seq<VariantView>, j: int)
    requires
        variants_wf(vs),
        0 <= j < KIND_COUNT,
    ensures
        vs.filter(key_is(kind_key(), j)).len() <= kind_size(j),
        j > 0 && !axis_active(vs, j) ==> vs.filter(key_is(kind_key(), j)).len() == 0,
{
    lemma_kind_values(vs, j);
    let sv = kind_values(vs, j);
    let range = vstd::set_lib::set_int_range(kind_lo(j), kind_lo(j) + kind_size(j));
    assert forall|x: int| sv.contains(x) implies range.contains(x) by {
        let i = choose|i: int| 0 <= i < vs.len() && vs[i].combo.kind() == j && axis_value(#[trigger] vs[i].combo, j) == x;
        assert(vs[i].combo.valid());
    }
    vstd::set_lib::lemma_int_range(kind_lo(j), kind_lo(j) + kind_size(j));
    vstd::set_lib::lemma_len_subset(sv, range);
    if j > 0 && !axis_active(vs, j) && sv.len() > 0 {
        let x = sv.choose();
        assert(sv.contains(x));
        let i = choose|i: int| 0 <= i < vs.len() && vs[i].combo.kind() == j && axis_value(#[trigger] vs[i].combo, j) == x;
        assert(axis_value(vs[i].combo, j) != 0);
    }
}

/// The default list's length is bounded by the axes, not their product: at
/// most one unmodified entry, plus for each axis that some recorded
/// combination modifies at most the size of its domain.
pub proof fn lemma_default_list_bound(vs: Seq<VariantView>)
    requires
        variants_wf(vs),
    ensures
        default_list(vs).len() <= 1 + (if axis_active(vs, 1) { MAX_TONE as int } else { 0 }) + (
        if axis_active(vs, 2) { MAX_GENDER as int } else { 0 }) + (if axis_active(vs, 3) {
            MAX_PAIR as int
        } else { 0 }) + (if axis_active(vs, 4) { MAX_CHILD_GENDER as int } else { 0 }) + (
        if axis_active(vs, 5) { MAX_PAIR as int } else { 0 }),
{
    broadcast use vstd::seq_lib::group_to_multiset_ensures;

    lemma_default_list_linear(vs);
    lemma_rank_nonneg();
    lemma_bucketed_multiset(vs, kind_key(), KIND_COUNT as int);
    assert(bucketed(vs, kind_key(), KIND_COUNT as int).to_multiset().len() == vs.filter(single_axis()).to_multiset().len());
    lemma_kind_count_bound(vs, 0);
    lemma_kind_count_bound(vs, 1);
    lemma_kind_count_bound(vs, 2);
    lemma_kind_count_bound(vs, 3);
    lemma_kind_count_bound(vs, 4);
    lemma_kind_count_bound(vs, 5);
    let b = |n: int| bucketed(vs, kind_key(), n);
    assert(bucketed(vs, kind_key(), 0).len() == 0);
    assert(b(1).len() == b(0).len() + vs.filter(key_is(kind_key(), 0)).len());
    assert(b(2).len() == b(1).len() + vs.filter(key_is(kind_key(), 1)).len());
    assert(b(3).len() == b(2).len() + vs.filter(key_is(kind_key(), 2)).len());
    assert(b(4).len() == b(3).len() + vs.filter(key_is(kind_key(), 3)).len());
    assert(b(5).len() == b(4).len() + vs.filter(key_is(kind_key(), 4)).len());
    assert(b(6).len() == b(5).len() + vs.filter(key_is(kind_key(), 5)).len());
    assert(b(6).len() == vs.filter(single_axis()).len());
    assert(vs.filter(key_is(kind_key(), 0)).len() <= 1);
    assert(vs.filter(key_is(kind_key(), 1)).len() <= kind_size(1));
    assert(vs.filter(key_is(kind_key(), 2)).len() <= kind_size(2));
    assert(vs.filter(key_is(kind_key(), 3)).len() <= kind_size(3));
    assert(vs.filter(key_is(kind_key(), 4)).len() <= kind_size(4));
    assert(vs.filter(key_is(kind_key(), 5)).len() <= kind_size(5));
}

/// Which axes an emoji varies on.
#[derive(Clone, Copy, Debug, PartialEq, Eq, Structural)]
pub struct Axes {
    pub tone: bool,
    pub gender: bool,
    pub pair: bool,
    pub child_gender: bool,
    pub child_pair: bool,
}

/// One logical emoji: its base display name, its identifier and its recorded
/// variants.
pub struct Emoji {
    pub base: String,
    pub identifier: String,
    pub variants: Vec<Variant>,
}

pub struct EmojiView {
    pub base: Seq<char>,
    pub identifier: Seq<char>,
    pub variants: Seq<VariantView>,
}

impl View for Emoji {
    type V = EmojiView;

    open spec fn view(&self) -> EmojiView {
        EmojiView {
            base: self.base@,
            identifier: self.identifier@,
            variants: variants_view(self.variants@),
        }
    }
}

impl Emoji {
    pub open spec fn wf(&self) -> bool {
        variants_wf(self@.variants)
    }

    pub fn duplicate(&self) -> (r: Emoji)
        ensures
            r@ == self@,
    {
        let mut vs: Vec<Variant> = Vec::new();
        let mut i: usize = 0;
        while i < self.variants.len()
            invariant
                i <= self.variants@.len(),
                variants_view(vs@) == variants_view(self.variants@).subrange(0, i as int),
            decreases self.variants@.len() - i,
        {
            let ghost before = vs@;
            vs.push(self.variants[i].duplicate());
            assert(variants_view(vs@) =~= variants_view(before).push(self.variants@[i as int]@));
            assert(variants_view(vs@) =~= variants_view(self.variants@).subrange(0, i + 1));
            i = i + 1;
        }
        assert(variants_view(self.variants@).subrange(0, i as int) =~= variants_view(self.variants@));
        Emoji { base: self.base.clone(), identifier: self.identifier.clone(), variants: vs }
    }

    /// The axes on which any recorded combination carries a value.
    pub fn axes(&self) -> (r: Axes)
        ensures
            r.tone == exists|i: int|
                0 <= i < self@.variants.len() && (#[trigger] self@.variants[i]).combo.tone != NONE,
            r.gender == exists|i: int|
                0 <= i < self@.variants.len() && (#[trigger] self@.variants[i]).combo.gender != NONE,
            r.pair == exists|i: int|
                0 <= i < self@.variants.len() && (#[trigger] self@.variants[i]).combo.pair != NONE,
            r.child_gender == exists|i: int|
                0 <= i < self@.variants.len() && (#[trigger] self@.variants[i]).combo.child_gender != NONE,
            r.child_pair == exists|i: int|
                0 <= i < self@.variants.len() && (#[trigger] self@.variants[i]).combo.child_pair != NONE,
    {
        let ghost vs = self@.variants;
        let mut r = Axes { tone: false, gender: false, pair: false, child_gender: false, child_pair: false };
        let mut i: usize = 0;
        while i < self.variants.len()
            invariant
                i <= self.variants.len(),
                vs == self@.variants,
                r.tone == exists|k: int| 0 <= k < i && (#[trigger] vs[k]).combo.tone != NONE,
                r.gender == exists|k: int| 0 <= k < i && (#[trigger] vs[k]).combo.gender != NONE,
                r.pair == exists|k: int| 0 <= k < i && (#[trigger] vs[k]).combo.pair != NONE,
                r.child_gender == exists|k: int| 0 <= k < i && (#[trigger] vs[k]).combo.child_gender != NONE,
                r.child_pair == exists|k: int| 0 <= k < i && (#[trigger] vs[k]).combo.child_pair != NONE,
            decreases self.variants.len() - i,
        {
            let c = self.variants[i].combo;
            assert(vs[i as int].combo == c);
            if c.tone != NONE {
                r.tone = true;
            }
            if c.gender != NONE {
                r.gender = true;
            }
            if c.pair != NONE {
                r.pair = true;
            }
            if c.child_gender != NONE {
                r.child_gender = true;
            }
            if c.child_pair != NONE {
                r.child_pair = true;
            }
            i = i + 1;
        }
        r
    }

    /// The full accessor list: every recorded combination, ordered by axis
    /// and then by the canonical value order on each axis.
    pub fn full_emoji_list(&self) -> (r: Vec<Variant>)
        requires
            self.wf(),
        ensures
            variants_view(r@) == full_list(self@.variants),
    {
        let ghost vs = self@.variants;
        let mut out: Vec<Variant> = Vec::new();
        let mut rank: u16 = 0;
        proof {
            assert(variants_view(out@) =~= full_upto(vs, 0));
        }
        while rank < COMBO_COUNT
            invariant
                rank <= COMBO_COUNT,
                vs == self@.variants,
                variants_wf(vs),
                variants_view(out@) == full_upto(vs, rank as int),
            decreases COMBO_COUNT - rank,
        {
            let mut j: usize = 0;
            proof {
                reveal(Seq::filter);
                assert(vs.subrange(0, 0) =~= Seq::<VariantView>::empty());
                assert(variants_view(out@) =~= full_upto(vs, rank as int) + vs.subrange(0, 0).filter(has_rank(rank as int)));
            }
            while j < self.variants.len()
                invariant
                    j <= self.variants.len(),
                    rank < COMBO_COUNT,
                    vs == self@.variants,
                    variants_wf(vs),
                    variants_view(out@) == full_upto(vs, rank as int) + vs.subrange(0, j as int).filter(
                        has_rank(rank as int),
                    ),
                decreases self.variants.len() - j,
            {
                let ghost before = out@;
                assert(vs[j as int] == self.variants[j as int]@);
                assert(vs[j as int].combo.valid());
                assert(vs.subrange(0, j + 1) =~= vs.subrange(0, j as int).push(vs[j as int]));
                proof {
                    vs.subrange(0, j as int).lemma_filter_push(vs[j as int], has_rank(rank as int));
                }
                if self.variants[j].combo.rank_of() == rank {
                    out.push(self.variants[j].duplicate());
                    assert(variants_view(out@) =~= variants_view(before).push(vs[j as int]));
                }
                j = j + 1;
            }
            assert(vs.subrange(0, self.variants.len() as int) =~= vs);
            rank = rank + 1;
        }
        out
    }

    /// The default accessor list: the unmodified entry, then for each axis
    /// in declaration order the entries that modify that axis alone.
    pub fn default_emoji_list(&self) -> (r: Vec<Variant>)
        requires
            self.wf(),
        ensures
            variants_view(r@) == default_list(self@.variants),
    {
        let full = self.full_emoji_list();
        let ghost fv = variants_view(full@);
        let mut out: Vec<Variant> = Vec::new();
        let mut kind: u8 = 0;
        proof {
            assert(variants_view(out@) =~= bucketed(fv, kind_key(), 0));
        }
        while kind < KIND_COUNT
            invariant
                kind <= KIND_COUNT,
                fv == variants_view(full@),
                variants_view(out@) == bucketed(fv, kind_key(), kind as int),
            decreases KIND_COUNT - kind,
        {
            let mut j: usize = 0;
            proof {
                reveal(Seq::filter);
                assert(fv.subrange(0, 0) =~= Seq::<VariantView>::empty());
                assert(variants_view(out@) =~= bucketed(fv, kind_key(), kind as int) + fv.subrange(0, 0).filter(key_is(kind_key(), kind as int)));
            }
            while j < full.len()
                invariant
                    j <= full.len(),
                    kind < KIND_COUNT,
                    fv == variants_view(full@),
                    variants_view(out@) == bucketed(fv, kind_key(), kind as int) + fv.subrange(0, j as int).filter(
                        key_is(kind_key(), kind as int),
                    ),
                decreases full.len() - j,
            {
                let ghost before = out@;
                assert(fv[j as int] == full[j as int]@);
                assert(fv.subrange(0, j + 1) =~= fv.subrange(0, j as int).push(fv[j as int]));
                proof {
                    fv.subrange(0, j as int).lemma_filter_push(fv[j as int], key_is(kind_key(), kind as int));
                }
                if full[j].combo.kind_of() == kind {
                    out.push(full[j].duplicate());
                    assert(variants_view(out@) =~= variants_view(before).push(fv[j as int]));
                }
                j = j + 1;
            }
            assert(fv.subrange(0, full.len() as int) =~= fv);
            kind = kind + 1;
        }
        out
    }

    /// The default grapheme: the unmodified variant where one is recorded,
    /// else the first entry of the full list.
    pub fn default_grapheme(&self) -> (r: Option<String>)
        requires
            self.wf(),
        ensures
            r is None <==> self@.variants.len() == 0,
            r is None ==> default_grapheme_of(self@.variants) is None,
            r is Some ==> Some(r->0@) == default_grapheme_of(self@.variants),
            (exists|i: int|
                0 <= i < self@.variants.len() && (#[trigger] self@.variants[i]).combo.axis_count()
                    == 0) ==> r is Some && (exists|i: int|
                0 <= i < self@.variants.len() && (#[trigger] self@.variants[i]).combo.axis_count()
                    == 0 && self@.variants[i].grapheme == r->0@),
    {
        let full = self.full_emoji_list();
        proof {
            broadcast use vstd::seq_lib::group_to_multiset_ensures;

            lemma_full_list_complete(self@.variants);
            lemma_default_grapheme_unmodified(self@.variants);
            assert(full_list(self@.variants).to_multiset().len() == self@.variants.to_multiset().len());
            assert(full_list(self@.variants).len() == self@.variants.len());
        }
        if full.len() > 0 {
            proof {
                assert(full[0]@ == full_list(self@.variants)[0]);
            }
            Some(full[0].grapheme.clone())
        } else {
            None
        }
    }
}

/// Where the unmodified combination is recorded, it heads the full list.
pub proof fn lemma_default_grapheme_unmodified(vs: Seq<VariantView>)
    requires
        variants_wf(vs),
    ensures
        forall|i: int|
            0 <= i < vs.len() && (#[trigger] vs[i]).combo.axis_count() == 0 ==> full_list(vs).len() > 0
                && full_list(vs)[0] == vs[i],
{
    assert forall|i: int| 0 <= i < vs.len() && (#[trigger] vs[i]).combo.axis_count() == 0 implies full_list(vs).len() > 0
        && full_list(vs)[0] == vs[i] by {
        lemma_full_upto_prefix(vs, 1, COMBO_COUNT as int);
        reveal(Seq::filter);
        lemma_only_one_unmodified(vs, i);
        let f = full_upto(vs, COMBO_COUNT as int);
        assert(f.subrange(0, 1)[0] == f[0]);
    }
}

proof fn lemma_full_upto_prefix(vs: Seq<VariantView>, m: int, n: int)
    requires
        0 <= m <= n,
    ensures
        full_upto(vs, n).subrange(0, full_upto(vs, m).len() as int) == full_upto(vs, m),
        full_upto(vs, m).len() <= full_upto(vs, n).len(),
    decreases n - m,
{
    if m < n {
        lemma_full_upto_prefix(vs, m, n - 1);
        let a = full_upto(vs, n - 1);
        assert((a + vs.filter(has_rank(n - 1))).subrange(0, full_upto(vs, m).len() as int) =~= a.subrange(
            0,
            full_upto(vs, m).len() as int,
        ));
    }
}

proof fn lemma_only_one_unmodified(vs: Seq<VariantView>, i: int)
    requires
        variants_wf(vs),
        0 <= i < vs.len(),
        vs[i].combo.axis_count() == 0,
    ensures
        full_upto(vs, 1) == seq![vs[i]],
{
    assert(full_upto(vs, 0) =~= Seq::<VariantView>::empty());
    assert(vs.filter(has_rank(0)) =~= seq![vs[i]]) by {
        lemma_rank_zero_unique(vs, i);
    }
    assert(full_upto(vs, 1) =~= Seq::<VariantView>::empty() + vs.filter(has_rank(0)));
}

proof fn lemma_rank_zero_unique(vs: Seq<VariantView>, i: int)
    requires
        variants_wf(vs),
        0 <= i < vs.len(),
        vs[i].combo.axis_count() == 0,
    ensures
        vs.filter(has_rank(0)) =~= seq![vs[i]],
    decreases vs.len(),
{
    reveal(Seq::filter);
    let d = vs.drop_last();
    assert(variants_wf(d)) by {
        assert forall|k: int| 0 <= k < d.len() implies (#[trigger] d[k]).combo.valid() by {
            assert(d[k] == vs[k]);
        }
        assert forall|k: int, l: int| 0 <= k < l < d.len() implies (#[trigger] d[k]).combo != (#[trigger] d[l]).combo by {
            assert(d[k] == vs[k] && d[l] == vs[l]);
        }
    }
    if i == vs.len() - 1 {
        assert forall|k: int| 0 <= k < d.len() implies !has_rank(0)(#[trigger] d[k]) by {
            assert(d[k] == vs[k]);
            assert(vs[k].combo.valid());
            assert(vs[k].combo != vs[i].combo);
        }
        if d.filter(has_rank(0)).len() > 0 {
            broadcast use vstd::seq_lib::group_filter_ensures;
            let x = d.filter(has_rank(0))[0];
            assert(d.filter(has_rank(0)).contains(x));
            d.lemma_filter_contains_rev(has_rank(0), x);
        }
        assert(d.filter(has_rank(0)) =~= Seq::<VariantView>::empty());
    } else {
        lemma_rank_zero_unique(d, i);
        assert(vs.last().combo.valid());
        assert(vs.last().combo != vs[i].combo);
    }
}

} // verus!
