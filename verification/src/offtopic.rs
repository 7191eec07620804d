//! Off-topic channels: what to create for a requested channel, who may see
//! it, and the alphabetical order of the off-topic category.
use vstd::prelude::*;

use crate::text::{
    char_vec, chars_le, chars_le_exec, lemma_chars_le_antisymmetric, lemma_chars_le_total,
    lemma_chars_le_transitive,
};

verus! {

/// The answers of the "create channel" form.
pub struct ChannelRequest {
    pub channel_name: String,
    pub role_name: Option<String>,
    pub description: Option<String>,
}

/// What to create for a request: a role, and a channel with a topic.
pub struct ChannelPlan {
    pub role_name: String,
    pub channel_name: String,
    pub topic: String,
}

/// The role is named as requested, or after the channel when no role name
/// was given; the topic is the description, or empty.
pub fn plan_channel(request: ChannelRequest) -> (plan: ChannelPlan)
    ensures
        plan.channel_name@ == request.channel_name@,
        plan.role_name@ == match request.role_name {
            Some(r) => r@,
            None => request.channel_name@,
        },
        plan.topic@ == match request.description {
            Some(d) => d@,
            None => Seq::<char>::empty(),
        },
{
    let role_name = match request.role_name {
        Some(r) => r,
        None => request.channel_name.clone(),
    };
    let topic = match request.description {
        Some(d) => d,
        None => String::new(),
    };
    ChannelPlan { role_name, channel_name: request.channel_name, topic }
}

/// Who may see a channel: the permission bits allowed and denied to a role.
#[derive(Debug, Clone, Copy, PartialEq, Eq, Structural)]
pub struct RoleOverwrite {
    pub role_id: u64,
    pub allow: u64,
    pub deny: u64,
}

/// The bits of Discord's "View Channel" permission, from
/// `serenity::all::Permissions::VIEW_CHANNEL.bits()`, which serenity defines
/// as `1 << 10`.
#[verifier::external_body]
fn view_channel_bits() -> (b: u64)
    ensures
        b == 1024,
{
    serenity::all::Permissions::VIEW_CHANNEL.bits()
}

/// The permission overwrites of a new off-topic channel: its own role may
/// view it, and the guild's `@everyone` role (whose id is the guild id) may
/// not. An empty permission set has no bits.
pub fn channel_overwrites(role_id: u64, guild_id: u64) -> (v: Vec<RoleOverwrite>)
    ensures
        v@ == seq![
            (RoleOverwrite { role_id: role_id, allow: 1024, deny: 0 }),
            (RoleOverwrite { role_id: guild_id, allow: 0, deny: 1024 }),
        ],
{
    let view = view_channel_bits();
    let mut v: Vec<RoleOverwrite> = Vec::new();
    v.push(RoleOverwrite { role_id, allow: view, deny: 0 });
    v.push(RoleOverwrite { role_id: guild_id, allow: 0, deny: view });
    v
}

/// A channel of the guild, as far as ordering needs it.
pub struct GuildChannelEntry {
    pub id: u64,
    pub parent_id: Option<u64>,
    pub name: String,
}

/// A channel and the position it is to be moved to.
#[derive(Debug, Clone, Copy, PartialEq, Eq, Structural)]
pub struct ChannelPosition {
    pub id: u64,
    pub position: u16,
}

/// The channel lies in the category `category`.
pub open spec fn in_category(c: GuildChannelEntry, category: u64) -> bool {
    c.parent_id == Some(category)
}

/// How many of `channels` lie in the category.
pub open spec fn count_in_category(channels: Seq<GuildChannelEntry>, category: u64) -> nat
    decreases channels.len(),
{
    if channels.len() == 0 {
        0
    } else {
        count_in_category(channels.drop_last(), category) + if in_category(
            channels.last(),
            category,
        ) {
            1nat
        } else {
            0nat
        }
    }
}

/// How many of `channels` lie in the category.
pub fn count_channels_in_category(channels: &Vec<GuildChannelEntry>, category: u64) -> (n: usize)
    ensures
        n == count_in_category(channels@, category),
{
    let mut n: usize = 0;
    let mut i: usize = 0;
    while i < channels.len()
        invariant
            0 <= i <= channels.len(),
            n == count_in_category(channels@.take(i as int), category),
            n <= i,
        decreases channels.len() - i,
    {
        proof {
            assert(channels@.take(i + 1).drop_last() =~= channels@.take(i as int));
            assert(channels@.take(i + 1).last() == channels@[i as int]);
        }
        let in_cat = match channels[i].parent_id {
            Some(p) => p == category,
            None => false,
        };
        if in_cat {
            n = n + 1;
        }
        i = i + 1;
    }
    assert(channels@.take(channels@.len() as int) =~= channels@);
    n
}

/// `order` lists, by index into `channels`, exactly the channels of the
/// category, each once, by name (lexicographic, as `String` orders), and
/// channels of equal name in their input order.
pub open spec fn category_order(channels: Seq<GuildChannelEntry>, category: u64, order: Seq<usize>) -> bool {
    &&& order.no_duplicates()
    &&& forall|k: int| 0 <= k < order.len() ==> (#[trigger] order[k]) < channels.len()
        && in_category(channels[order[k] as int], category)
    &&& forall|i: int| 0 <= i < channels.len() && in_category(#[trigger] channels[i], category)
        ==> order.contains(i as usize)
    &&& forall|a: int, b: int| 0 <= a < b < order.len() ==> chars_le(
        channels[order[a] as int].name@,
        channels[order[b] as int].name@,
    )
    &&& forall|a: int, b: int|
        0 <= a < b < order.len() && channels[order[a] as int].name@ == channels[order[b] as int].name@
            ==> order[a] < order[b]
}

proof fn lemma_chars_le_refl(a: Seq<char>)
    ensures
        chars_le(a, a),
    decreases a.len(),
{
    if a.len() > 0 {
        lemma_chars_le_refl(a.drop_first());
    }
}

/// The channels of the category, by index, in the order `category_order`
/// describes (a stable sort by name of the channels in the category).
pub fn sort_category(channels: &Vec<GuildChannelEntry>, category: u64) -> (order: Vec<usize>)
    ensures
        category_order(channels@, category, order@),
        order@.len() == count_in_category(channels@, category),
{
    let mut names: Vec<Vec<char>> = Vec::new();
    let mut order: Vec<usize> = Vec::new();
    let mut i: usize = 0;
    while i < channels.len()
        invariant
            0 <= i <= channels.len(),
            names@.len() == i,
            forall|j: int| 0 <= j < i ==> (#[trigger] names@[j])@ == channels@[j].name@,
            order@.len() == count_in_category(channels@.take(i as int), category),
            order@.no_duplicates(),
            forall|k: int| 0 <= k < order.len() ==> (#[trigger] order@[k]) < i && in_category(
                channels@[order@[k] as int],
                category,
            ),
            forall|j: int| 0 <= j < i && in_category(#[trigger] channels@[j], category)
                ==> order@.contains(j as usize),
            forall|a: int, b: int| 0 <= a < b < order.len() ==> chars_le(
                channels@[order@[a] as int].name@,
                channels@[order@[b] as int].name@,
            ),
            forall|a: int, b: int|
                0 <= a < b < order.len() && channels@[order@[a] as int].name@ == channels@[order@[
                    b
                ] as int].name@ ==> order@[a] < order@[b],
        decreases channels.len() - i,
    {
        let name_i = char_vec(channels[i].name.as_str());
        proof {
            assert(channels@.take(i + 1).drop_last() =~= channels@.take(i as int));
            assert(channels@.take(i + 1).last() == channels@[i as int]);
        }
        let in_cat = match channels[i].parent_id {
            Some(p) => p == category,
            None => false,
        };
        if in_cat {
            let ghost x = channels@[i as int].name@;
            let mut p: usize = 0;
            while p < order.len() && chars_le_exec(&names[order[p]], &name_i)
                invariant
                    0 <= p <= order.len(),
                    i < channels.len(),
                    names@.len() == i,
                    name_i@ == x,
                    x == channels@[i as int].name@,
                    forall|j: int| 0 <= j < i ==> (#[trigger] names@[j])@ == channels@[j].name@,
                    forall|k: int| 0 <= k < order.len() ==> (#[trigger] order@[k]) < i,
                    forall|a: int| 0 <= a < p ==> chars_le(
                        channels@[order@[a] as int].name@,
                        x,
                    ),
                decreases order.len() - p,
            {
                p = p + 1;
            }
            let ghost old_order = order@;
            proof {
                if p < order.len() {
                    assert(!chars_le(channels@[old_order[p as int] as int].name@, x));
                    lemma_chars_le_total(channels@[old_order[p as int] as int].name@, x);
                }
                lemma_chars_le_refl(x);
            }
            order.insert(p, i);
            proof {
                let o = order@;
                assert(o.len() == old_order.len() + 1);
                assert(forall|k: int| 0 <= k < p ==> o[k] == old_order[k]);
                assert(o[p as int] == i);
                assert(forall|k: int| p < k < o.len() ==> o[k] == old_order[k - 1]);
                assert forall|b: int| p < b < o.len() implies chars_le(
                    x,
                    #[trigger] channels@[o[b] as int].name@,
                ) by {
                    let q = old_order[p as int];
                    lemma_chars_le_total(channels@[q as int].name@, x);
                    if b > p + 1 {
                        lemma_chars_le_transitive(
                            x,
                            channels@[q as int].name@,
                            channels@[o[b] as int].name@,
                        );
                    }
                }
                assert forall|a: int, b: int| 0 <= a < b < o.len() implies chars_le(
                    channels@[o[a] as int].name@,
                    channels@[o[b] as int].name@,
                ) by {
                    if a < p && b > p {
                        assert(chars_le(x, channels@[o[b] as int].name@));
                        lemma_chars_le_transitive(
                            channels@[o[a] as int].name@,
                            x,
                            channels@[o[b] as int].name@,
                        );
                    } else if a == p {
                        assert(chars_le(x, channels@[o[b] as int].name@));
                    }
                }
                assert forall|a: int, b: int|
                    0 <= a < b < o.len() && channels@[o[a] as int].name@ == channels@[o[
                        b
                    ] as int].name@ implies o[a] < o[b] by {
                    if a == p {
                        let q = old_order[p as int];
                        if b > p + 1 {
                            assert(chars_le(
                                channels@[q as int].name@,
                                channels@[o[b] as int].name@,
                            ));
                        }
                    }
                }
                assert forall|k1: int, k2: int| 0 <= k1 < o.len() && 0 <= k2 < o.len() && k1 != k2
                    implies o[k1] != o[k2] by {
                    if k1 != p && k2 != p {
                        let j1 = if k1 < p { k1 } else { k1 - 1 };
                        let j2 = if k2 < p { k2 } else { k2 - 1 };
                        assert(old_order[j1] != old_order[j2]);
                    }
                }
                assert forall|j: int| 0 <= j < i + 1 && in_category(#[trigger] channels@[j], category)
                    implies o.contains(j as usize) by {
                    if j == i {
                        assert(o[p as int] == i);
                    } else {
                        assert(old_order.contains(j as usize));
                        let k = choose|k: int| 0 <= k < old_order.len() && old_order[k] == j as usize;
                        if k < p {
                            assert(o[k] == j as usize);
                        } else {
                            assert(o[k + 1] == j as usize);
                        }
                    }
                }
            }
        } else {
            proof {
                assert(!in_category(channels@[i as int], category));
            }
        }
        names.push(name_i);
        i = i + 1;
    }
    proof {
        assert(channels@.take(channels@.len() as int) =~= channels@);
    }
    order
}

/// The positions to give the channels of the off-topic category so that
/// they appear by name: the `k`-th channel of `sort_category`'s order goes
/// to position `k`. Positions are `u16`s, so the category holds at most
/// 65536 channels.
pub fn order_channels(channels: &Vec<GuildChannelEntry>, category: u64) -> (moves: Vec<ChannelPosition>)
    requires
        count_in_category(channels@, category) <= 65536,
    ensures
        moves@.len() == count_in_category(channels@, category),
        exists|order: Seq<usize>|
            {
                &&& category_order(channels@, category, order)
                &&& moves@.len() == order.len()
                &&& forall|k: int| 0 <= k < order.len() ==> (#[trigger] moves@[k]) == (ChannelPosition {
                    id: channels@[order[k] as int].id,
                    position: k as u16,
                })
            },
{
    let order = sort_category(channels, category);
    let mut moves: Vec<ChannelPosition> = Vec::new();
    let mut k: usize = 0;
    while k < order.len()
        invariant
            0 <= k <= order.len(),
            order.len() <= 65536,
            category_order(channels@, category, order@),
            moves@.len() == k,
            forall|j: int| 0 <= j < k ==> (#[trigger] moves@[j]) == (ChannelPosition {
                id: channels@[order@[j] as int].id,
                position: j as u16,
            }),
        decreases order.len() - k,
    {
        let idx = order[k];
        assert(idx < channels.len());
        moves.push(ChannelPosition { id: channels[idx].id, position: k as u16 });
        k = k + 1;
    }
    moves
}

/// No two channels of the category share a name.
pub open spec fn distinct_category_names(c: Seq<GuildChannelEntry>, category: u64) -> bool {
    forall|i: int, j: int|
        0 <= i < c.len() && 0 <= j < c.len() && i != j && in_category(#[trigger] c[i], category)
            && in_category(#[trigger] c[j], category) ==> c[i].name@ != c[j].name@
}

/// Every channel of the category in `c1` is, with the same id and name, a
/// channel of the category in `c2`.
pub open spec fn category_covered(
    c1: Seq<GuildChannelEntry>,
    c2: Seq<GuildChannelEntry>,
    category: u64,
) -> bool {
    forall|i: int|
        0 <= i < c1.len() && in_category(#[trigger] c1[i], category) ==> exists|j: int|
            0 <= j < c2.len() && in_category(#[trigger] c2[j], category) && c2[j].id == c1[i].id
                && c2[j].name@ == c1[i].name@
}

/// The name of the `k`-th channel of an ordering.
pub open spec fn name_at(c: Seq<GuildChannelEntry>, order: Seq<usize>, k: int) -> Seq<char> {
    c[order[k] as int].name@
}

proof fn lemma_names_distinct_in_order(
    c: Seq<GuildChannelEntry>,
    category: u64,
    order: Seq<usize>,
    a: int,
    b: int,
)
    requires
        category_order(c, category, order),
        distinct_category_names(c, category),
        0 <= a < order.len(),
        0 <= b < order.len(),
        a != b,
    ensures
        name_at(c, order, a) != name_at(c, order, b),
{
    let ia = order[a] as int;
    let ib = order[b] as int;
    assert(order[a] < c.len() && in_category(c[ia], category));
    assert(order[b] < c.len() && in_category(c[ib], category));
    assert(order[a] != order[b]);
}

proof fn lemma_found_in_order(
    c1: Seq<GuildChannelEntry>,
    c2: Seq<GuildChannelEntry>,
    category: u64,
    o2: Seq<usize>,
    i: int,
) -> (m: int)
    requires
        category_covered(c1, c2, category),
        category_order(c2, category, o2),
        c2.len() <= usize::MAX,
        0 <= i < c1.len(),
        in_category(c1[i], category),
    ensures
        0 <= m < o2.len(),
        c2[o2[m] as int].id == c1[i].id,
        name_at(c2, o2, m) == c1[i].name@,
{
    let j = choose|j: int|
        0 <= j < c2.len() && in_category(#[trigger] c2[j], category) && c2[j].id == c1[i].id
            && c2[j].name@ == c1[i].name@;
    assert(o2.contains(j as usize));
    let m = choose|m: int| 0 <= m < o2.len() && o2[m] == j as usize;
    assert(o2[m] as int == j);
    m
}

#[verifier::rlimit(30)]
proof fn lemma_agree_at(
    c1: Seq<GuildChannelEntry>,
    c2: Seq<GuildChannelEntry>,
    category: u64,
    o1: Seq<usize>,
    o2: Seq<usize>,
    k: int,
)
    requires
        category_order(c1, category, o1),
        category_order(c2, category, o2),
        distinct_category_names(c1, category),
        distinct_category_names(c2, category),
        category_covered(c1, c2, category),
        category_covered(c2, c1, category),
        c1.len() <= usize::MAX,
        c2.len() <= usize::MAX,
        0 <= k < o1.len(),
        0 <= k < o2.len(),
        forall|j: int| 0 <= j < k ==> name_at(c1, o1, j) == name_at(c2, o2, j),
    ensures
        name_at(c1, o1, k) == name_at(c2, o2, k),
{
    let x1 = name_at(c1, o1, k);
    let x2 = name_at(c2, o2, k);
    let i1 = o1[k] as int;
    let i2 = o2[k] as int;
    assert(o1[k] < c1.len() && in_category(c1[i1], category));
    assert(o2[k] < c2.len() && in_category(c2[i2], category));
    let m = lemma_found_in_order(c1, c2, category, o2, i1);
    if m < k {
        assert(name_at(c1, o1, m) == name_at(c2, o2, m));
        lemma_names_distinct_in_order(c1, category, o1, m, k);
    }
    if m > k {
        assert(chars_le(x2, name_at(c2, o2, m)));
    } else {
        lemma_chars_le_refl(x2);
    }
    let m2 = lemma_found_in_order(c2, c1, category, o1, i2);
    if m2 < k {
        assert(name_at(c1, o1, m2) == name_at(c2, o2, m2));
        lemma_names_distinct_in_order(c2, category, o2, m2, k);
    }
    if m2 > k {
        assert(chars_le(x1, name_at(c1, o1, m2)));
    } else {
        lemma_chars_le_refl(x1);
    }
    lemma_chars_le_antisymmetric(x1, x2);
}

proof fn lemma_agree_upto(
    c1: Seq<GuildChannelEntry>,
    c2: Seq<GuildChannelEntry>,
    category: u64,
    o1: Seq<usize>,
    o2: Seq<usize>,
    n: int,
)
    requires
        category_order(c1, category, o1),
        category_order(c2, category, o2),
        distinct_category_names(c1, category),
        distinct_category_names(c2, category),
        category_covered(c1, c2, category),
        category_covered(c2, c1, category),
        c1.len() <= usize::MAX,
        c2.len() <= usize::MAX,
        0 <= n <= o1.len(),
        n <= o2.len(),
    ensures
        forall|j: int| 0 <= j < n ==> name_at(c1, o1, j) == name_at(c2, o2, j),
    decreases n,
{
    if n > 0 {
        lemma_agree_upto(c1, c2, category, o1, o2, n - 1);
        lemma_agree_at(c1, c2, category, o1, o2, n - 1);
    }
}

proof fn lemma_no_longer(
    c1: Seq<GuildChannelEntry>,
    c2: Seq<GuildChannelEntry>,
    category: u64,
    o1: Seq<usize>,
    o2: Seq<usize>,
)
    requires
        category_order(c1, category, o1),
        category_order(c2, category, o2),
        distinct_category_names(c1, category),
        category_covered(c1, c2, category),
        c2.len() <= usize::MAX,
        o2.len() <= o1.len(),
        forall|j: int| 0 <= j < o2.len() ==> name_at(c1, o1, j) == name_at(c2, o2, j),
    ensures
        o1.len() == o2.len(),
{
    if o2.len() < o1.len() {
        let k = o2.len() as int;
        let i1 = o1[k] as int;
        assert(o1[k] < c1.len() && in_category(c1[i1], category));
        let m = lemma_found_in_order(c1, c2, category, o2, i1);
        assert(name_at(c1, o1, m) == name_at(c2, o2, m));
        lemma_names_distinct_in_order(c1, category, o1, m, k);
    }
}

/// Ordering is repeatable: two listings that hold the same channels of the
/// category (same ids and names, in any input order), with no two of them
/// named alike, are ordered alike, so every channel is given the same
/// position both times. In particular ordering an ordered category again
/// moves nothing.
pub proof fn lemma_category_order_repeatable(
    c1: Seq<GuildChannelEntry>,
    c2: Seq<GuildChannelEntry>,
    category: u64,
    o1: Seq<usize>,
    o2: Seq<usize>,
)
    requires
        category_order(c1, category, o1),
        category_order(c2, category, o2),
        distinct_category_names(c1, category),
        distinct_category_names(c2, category),
        category_covered(c1, c2, category),
        category_covered(c2, c1, category),
        c1.len() <= usize::MAX,
        c2.len() <= usize::MAX,
    ensures
        o1.len() == o2.len(),
        forall|k: int|
            0 <= k < o1.len() ==> c1[#[trigger] o1[k] as int].id == c2[o2[k] as int].id
                && c1[o1[k] as int].name@ == c2[o2[k] as int].name@,
{
    if o1.len() <= o2.len() {
        lemma_agree_upto(c1, c2, category, o1, o2, o1.len() as int);
        assert forall|j: int| 0 <= j < o1.len() implies name_at(c2, o2, j) == name_at(c1, o1, j) by {}
        lemma_no_longer(c2, c1, category, o2, o1);
    } else {
        lemma_agree_upto(c1, c2, category, o1, o2, o2.len() as int);
        lemma_no_longer(c1, c2, category, o1, o2);
    }
    assert forall|k: int| 0 <= k < o1.len() implies c1[#[trigger] o1[k] as int].id == c2[o2[
        k
    ] as int].id && c1[o1[k] as int].name@ == c2[o2[k] as int].name@ by {
        let i1 = o1[k] as int;
        assert(o1[k] < c1.len() && in_category(c1[i1], category));
        let m = lemma_found_in_order(c1, c2, category, o2, i1);
        if m != k {
            lemma_names_distinct_in_order(c2, category, o2, m, k);
        }
    }
}

} // verus!
