//! The grouping engine: partitions the candidate list into duplicate
//! groups by repeated partition-by-representative.
//!
//! A representative is removed from the pool and compared against every
//! remaining candidate; all candidates judged byte-identical leave the pool
//! and form one group with it.  A comparison that fails is recorded and
//! treated as "not a duplicate", so a failed read never joins two files.
//! Groups of one are discarded.  Members are ordered by ascending path
//! length, groups by ascending count with ties broken by the longest
//! member's path length, so the report is deterministic whatever order the
//! candidates arrived in.

use vstd::prelude::*;
use vstd::multiset::Multiset;
use vstd::seq_lib::group_to_multiset_ensures;
use crate::errors::TraversalError;
use crate::file_data::FileData;
use crate::file_data::same_content;
use crate::group::Group;

verus! {

broadcast use group_to_multiset_ensures;

/// The candidates of `m` holding the same content as `x`: the duplicate
/// class of `x` (it contains `x` itself whenever `x` was readable).
pub open spec fn class_of(m: Multiset<FileData>, x: FileData) -> Multiset<FileData> {
    m.filter(|y: FileData| same_content(y, x))
}

/// `x` stands in a duplicate relationship within `m`: its class holds at
/// least two candidates.
pub open spec fn has_duplicate(m: Multiset<FileData>, x: FileData) -> bool {
    class_of(m, x).len() >= 2
}

/// Members in ascending order of path length.
pub open spec fn sorted_by_path_len(s: Seq<FileData>) -> bool {
    forall|i: int, j: int| 0 <= i <= j < s.len() ==> s[i].path@.len() <= s[j].path@.len()
}

/// Path length of a group's last member; once members are ordered, the
/// longest path in the group.
pub open spec fn last_path_len(g: Group) -> nat {
    g.paths@.last().path@.len()
}

/// Groups in ascending order of count, ties broken by the longest member's
/// path length, ascending.
pub open spec fn group_le(a: Group, b: Group) -> bool {
    a.count < b.count || (a.count == b.count && last_path_len(a) <= last_path_len(b))
}

pub open spec fn sorted_groups(s: Seq<Group>) -> bool {
    forall|i: int, j: int| 0 <= i <= j < s.len() ==> group_le(s[i], s[j])
}

/// Every member of every group, as one multiset.
pub open spec fn grouped_files(gs: Seq<Group>) -> Multiset<FileData>
    decreases gs.len(),
{
    if gs.len() == 0 {
        Multiset::empty()
    } else {
        grouped_files(gs.drop_last()).add(gs.last().paths@.to_multiset())
    }
}

/// One well-formed output group over the candidate multiset `m`: the count
/// matches, at least two members, members ordered by path length, and the
/// members are exactly the duplicate class of any one of them.
pub open spec fn group_ok(g: Group, m: Multiset<FileData>) -> bool {
    &&& g.count == g.paths@.len()
    &&& g.paths@.len() >= 2
    &&& sorted_by_path_len(g.paths@)
    &&& g.paths@.to_multiset() == class_of(m, g.paths@[0])
}

/// What grouping guarantees, stated of the candidate multiset alone: every
/// group is a full duplicate class, and the groups together hold exactly
/// the candidates that stand in a duplicate relationship — each exactly as
/// often as it occurs among the candidates.
pub open spec fn valid_grouping(m: Multiset<FileData>, gs: Seq<Group>) -> bool {
    &&& forall|i: int| 0 <= i < gs.len() ==> group_ok(#[trigger] gs[i], m)
    &&& forall|x: FileData|
        #[trigger] grouped_files(gs).count(x) == if has_duplicate(m, x) {
            m.count(x)
        } else {
            0
        }
}

/// Two candidates of the same class have the same class.
pub proof fn lemma_class_of_same(m: Multiset<FileData>, a: FileData, b: FileData)
    requires
        same_content(a, b),
    ensures
        class_of(m, a) == class_of(m, b),
{
    assert forall|y: FileData| class_of(m, a).count(y) == class_of(m, b).count(y) by {
        assert(same_content(y, a) == same_content(y, b));
    }
    assert(class_of(m, a) =~= class_of(m, b));
}

/// Appending a group adds its members to the grouped multiset.
proof fn lemma_grouped_push(gs: Seq<Group>, g: Group)
    ensures
        grouped_files(gs.push(g)) == grouped_files(gs).add(g.paths@.to_multiset()),
{
    assert(gs.push(g).drop_last() =~= gs);
    assert(gs.push(g).last() == g);
}

/// Removing a group takes away exactly its members.
proof fn lemma_grouped_remove(gs: Seq<Group>, i: int)
    requires
        0 <= i < gs.len(),
    ensures
        grouped_files(gs) == grouped_files(gs.remove(i)).add(gs[i].paths@.to_multiset()),
    decreases gs.len(),
{
    if i == gs.len() - 1 {
        assert(gs.remove(i) =~= gs.drop_last());
    } else {
        let init = gs.drop_last();
        lemma_grouped_remove(init, i);
        assert(gs.remove(i).drop_last() =~= init.remove(i));
        assert(gs.remove(i).last() == gs.last());
        assert(init[i] == gs[i]);
        assert(grouped_files(gs.remove(i)).add(gs[i].paths@.to_multiset()) =~= grouped_files(gs));
    }
}

/// Inserting a group adds exactly its members.
proof fn lemma_grouped_insert(gs: Seq<Group>, i: int, g: Group)
    requires
        0 <= i <= gs.len(),
    ensures
        grouped_files(gs.insert(i, g)) == grouped_files(gs).add(g.paths@.to_multiset()),
{
    lemma_grouped_remove(gs.insert(i, g), i);
    assert(gs.insert(i, g).remove(i) =~= gs);
    assert(gs.insert(i, g)[i] == g);
}

/// The contents of the groups of a report, each group as the multiset of
/// its members.
pub open spec fn group_contents(gs: Seq<Group>) -> Set<Multiset<FileData>> {
    Set::new(
        |c: Multiset<FileData>|
            exists|i: int| 0 <= i < gs.len() && (#[trigger] gs[i]).paths@.to_multiset() == c,
    )
}

/// A candidate found somewhere among the groups lies in some group.
proof fn lemma_grouped_witness(gs: Seq<Group>, x: FileData)
    requires
        grouped_files(gs).count(x) > 0,
    ensures
        exists|i: int|
            0 <= i < gs.len() && (#[trigger] gs[i].paths@.to_multiset()).count(x) > 0,
    decreases gs.len(),
{
    if gs.len() > 0 {
        if gs.last().paths@.to_multiset().count(x) > 0 {
            assert(gs[gs.len() - 1].paths@.to_multiset().count(x) > 0);
        } else {
            assert(grouped_files(gs.drop_last()).count(x) > 0) by {
                assert(grouped_files(gs).count(x) == grouped_files(gs.drop_last()).add(
                    gs.last().paths@.to_multiset(),
                ).count(x));
            }
            lemma_grouped_witness(gs.drop_last(), x);
            let i = choose|i: int|
                0 <= i < gs.drop_last().len() && (#[trigger] gs.drop_last()[i].paths@.to_multiset()).count(
                    x,
                ) > 0;
            assert(gs[i].paths@.to_multiset().count(x) > 0);
        }
    }
}

/// A group of a valid grouping that holds `x` holds all of `x`'s
/// occurrences among the candidates.
proof fn lemma_group_holds_class(m: Multiset<FileData>, gs: Seq<Group>, x: FileData, i: int)
    requires
        valid_grouping(m, gs),
        0 <= i < gs.len(),
        gs[i].paths@.to_multiset().count(x) > 0,
    ensures
        gs[i].paths@.to_multiset() == class_of(m, x),
        gs[i].paths@.to_multiset().count(x) == m.count(x),
        same_content(x, x),
{
    let anchor = gs[i].paths@[0];
    assert(gs[i].paths@.to_multiset() == class_of(m, anchor));
    assert(same_content(x, anchor));
    lemma_class_of_same(m, x, anchor);
    assert(class_of(m, x).count(x) == m.count(x));
}

/// Each candidate that has a duplicate appears in exactly one group of a
/// valid grouping: one group holds it, and no two groups do.
pub proof fn lemma_one_group_each(m: Multiset<FileData>, gs: Seq<Group>, x: FileData)
    requires
        valid_grouping(m, gs),
        m.count(x) > 0,
        has_duplicate(m, x),
    ensures
        exists|i: int|
            0 <= i < gs.len() && (#[trigger] gs[i].paths@.to_multiset()).count(x) > 0,
        forall|i: int, j: int|
            0 <= i < j < gs.len() ==> !((#[trigger] gs[i].paths@.to_multiset()).count(x) > 0
                && (#[trigger] gs[j].paths@.to_multiset()).count(x) > 0),
{
    assert(grouped_files(gs).count(x) == m.count(x));
    lemma_grouped_witness(gs, x);
    assert forall|i: int, j: int|
        0 <= i < j < gs.len() implies !((#[trigger] gs[i].paths@.to_multiset()).count(x) > 0
        && (#[trigger] gs[j].paths@.to_multiset()).count(x) > 0) by {
        if gs[i].paths@.to_multiset().count(x) > 0 && gs[j].paths@.to_multiset().count(x) > 0 {
            lemma_group_holds_class(m, gs, x, i);
            lemma_group_holds_class(m, gs, x, j);
            lemma_grouped_remove(gs, i);
            let rest = gs.remove(i);
            assert(rest[j - 1] == gs[j]);
            lemma_grouped_remove(rest, j - 1);
            assert(grouped_files(gs).count(x) == grouped_files(rest).add(
                gs[i].paths@.to_multiset(),
            ).count(x));
            assert(grouped_files(rest).count(x) == grouped_files(rest.remove(j - 1)).add(
                gs[j].paths@.to_multiset(),
            ).count(x));
            assert(grouped_files(gs).count(x) >= 2 * m.count(x));
            assert(false);
        }
    }
}

/// One direction of reorder-invariance: every group of one valid grouping
/// occurs among the groups of any other over the same candidates.
proof fn lemma_contents_subset(m: Multiset<FileData>, gsa: Seq<Group>, gsb: Seq<Group>)
    requires
        valid_grouping(m, gsa),
        valid_grouping(m, gsb),
    ensures
        forall|c: Multiset<FileData>|
            group_contents(gsa).contains(c) ==> #[trigger] group_contents(gsb).contains(c),
{
    assert forall|c: Multiset<FileData>|
        group_contents(gsa).contains(c) implies #[trigger] group_contents(gsb).contains(c) by {
        let i = choose|i: int| 0 <= i < gsa.len() && (#[trigger] gsa[i]).paths@.to_multiset() == c;
        let anchor = gsa[i].paths@[0];
        assert(c.count(anchor) > 0) by {
            assert(gsa[i].paths@.contains(anchor));
        }
        lemma_group_holds_class(m, gsa, anchor, i);
        assert(c == class_of(m, anchor));
        assert(has_duplicate(m, anchor)) by {
            assert(c.len() == gsa[i].paths@.len());
        }
        assert(m.count(anchor) > 0) by {
            assert(class_of(m, anchor).count(anchor) == m.count(anchor));
        }
        assert(grouped_files(gsb).count(anchor) == m.count(anchor));
        lemma_grouped_witness(gsb, anchor);
        let j = choose|j: int|
            0 <= j < gsb.len() && (#[trigger] gsb[j].paths@.to_multiset()).count(anchor) > 0;
        lemma_group_holds_class(m, gsb, anchor, j);
        assert(gsb[j].paths@.to_multiset() == c);
        assert(group_contents(gsb).contains(c));
    }
}

/// Grouping does not depend on the order the candidates arrived in: any
/// two valid groupings of the same candidate multiset report the same set
/// of groups, each group taken as the multiset of its members.
pub proof fn lemma_grouping_reorder(m: Multiset<FileData>, gs1: Seq<Group>, gs2: Seq<Group>)
    requires
        valid_grouping(m, gs1),
        valid_grouping(m, gs2),
    ensures
        group_contents(gs1) == group_contents(gs2),
{
    lemma_contents_subset(m, gs1, gs2);
    lemma_contents_subset(m, gs2, gs1);
    assert(group_contents(gs1) =~= group_contents(gs2));
}

/// Every candidate that occurs in `m` was readable.
spec fn all_readable(m: Multiset<FileData>) -> bool {
    forall|x: FileData| #[trigger] m.count(x) > 0 ==> x.content is Some
}

/// Counting in a pool split into duplicates, leftovers and the
/// representative.
proof fn lemma_split_count(
    pool0: Multiset<FileData>,
    dms: Multiset<FileData>,
    lms: Multiset<FileData>,
    rep: FileData,
    y: FileData,
)
    requires
        pool0 == dms.add(lms).insert(rep),
    ensures
        pool0.count(y) == dms.count(y) + lms.count(y) + (if y == rep {
            1int
        } else {
            0int
        }),
{
    assert(pool0.count(y) == dms.add(lms).insert(rep).count(y));
}

/// One pass of partition-by-representative, seen on the multisets: with
/// every pool candidate judged equal to the representative in `dups` and
/// every other one in `left`, the representative's group is its full
/// duplicate class among the candidates, a representative that found no
/// duplicate has none among the candidates at all, and the classes of the
/// leftover candidates are untouched by the removal.
proof fn lemma_partition_step(
    input_ms: Multiset<FileData>,
    pool0: Multiset<FileData>,
    rep: FileData,
    dups: Seq<FileData>,
    left: Seq<FileData>,
)
    requires
        pool0 == dups.to_multiset().add(left.to_multiset()).insert(rep),
        forall|k: int| 0 <= k < dups.len() ==> same_content(#[trigger] dups[k], rep),
        forall|k: int| 0 <= k < left.len() ==> !same_content(rep, #[trigger] left[k]),
        forall|x: FileData|
            pool0.count(x) > 0 ==> #[trigger] class_of(pool0, x) == class_of(input_ms, x),
    ensures
        dups.len() >= 1 ==> dups.push(rep).to_multiset() == class_of(input_ms, rep),
        dups.len() == 0 ==> !has_duplicate(input_ms, rep),
        forall|x: FileData|
            left.to_multiset().count(x) > 0 ==> #[trigger] class_of(left.to_multiset(), x)
                == class_of(input_ms, x),
{
    let dms = dups.to_multiset();
    let lms = left.to_multiset();
    assert forall|y: FileData| dms.count(y) > 0 implies same_content(y, rep) by {
        assert(dups.contains(y));
        let k = choose|k: int| 0 <= k < dups.len() && dups[k] == y;
        assert(same_content(dups[k], rep));
    }
    assert forall|y: FileData| lms.count(y) > 0 implies !same_content(rep, y) by {
        assert(left.contains(y));
        let k = choose|k: int| 0 <= k < left.len() && left[k] == y;
        assert(!same_content(rep, left[k]));
    }
    assert(pool0.count(rep) > 0) by {
        lemma_split_count(pool0, dms, lms, rep, rep);
    }
    assert(class_of(pool0, rep) == class_of(input_ms, rep));
    if dups.len() >= 1 {
        assert(dms.count(dups[0]) > 0) by {
            assert(dups.contains(dups[0]));
        }
        assert(same_content(dups[0], rep));
        assert(same_content(rep, rep));
        vstd::seq_lib::to_multiset_build(dups, rep);
        let members = dups.push(rep).to_multiset();
        assert(members == dms.insert(rep));
        assert forall|y: FileData| members.count(y) == class_of(pool0, rep).count(y) by {
            lemma_split_count(pool0, dms, lms, rep, y);
            assert(members.count(y) == dms.insert(rep).count(y));
            if same_content(y, rep) {
                if lms.count(y) > 0 {
                    assert(!same_content(rep, y));
                    assert(false);
                }
            } else {
                if dms.count(y) > 0 {
                    assert(false);
                }
                assert(y != rep);
            }
        }
        assert(members =~= class_of(pool0, rep));
    } else {
        assert(dups.to_multiset().len() == 0);
        let c = class_of(pool0, rep);
        if same_content(rep, rep) {
            assert forall|y: FileData| c.count(y) == Multiset::empty().insert(rep).count(y) by {
                lemma_split_count(pool0, dms, lms, rep, y);
                assert(Multiset::empty().insert(rep).count(y) == Multiset::<
                    FileData,
                >::empty().add(Multiset::singleton(rep)).count(y));
                if same_content(y, rep) {
                    if lms.count(y) > 0 {
                        assert(!same_content(rep, y));
                        assert(false);
                    }
                }
            }
            assert(c =~= Multiset::empty().insert(rep));
            assert(c.len() == Multiset::<FileData>::empty().add(
                Multiset::singleton(rep),
            ).len());
        } else {
            assert forall|y: FileData| c.count(y) == 0 by {
                lemma_split_count(pool0, dms, lms, rep, y);
                if same_content(y, rep) {
                    if lms.count(y) > 0 {
                        assert(false);
                    }
                    assert(y != rep);
                }
            }
            assert(c =~= Multiset::<FileData>::empty());
        }
        assert(c.len() <= 1);
        assert(!has_duplicate(input_ms, rep));
    }
    assert forall|x: FileData|
        lms.count(x) > 0 implies #[trigger] class_of(lms, x) == class_of(input_ms, x) by {
        assert(!same_content(rep, x));
        assert(pool0.count(x) > 0) by {
            lemma_split_count(pool0, dms, lms, rep, x);
        }
        assert forall|y: FileData| class_of(lms, x).count(y) == class_of(pool0, x).count(y) by {
            lemma_split_count(pool0, dms, lms, rep, y);
            if same_content(y, x) {
                if dms.count(y) > 0 {
                    assert(same_content(y, rep));
                    assert(same_content(rep, x));
                    assert(false);
                }
                if y == rep {
                    assert(same_content(rep, x));
                    assert(false);
                }
            }
        }
        assert(class_of(lms, x) =~= class_of(pool0, x));
    }
}

/// Orders members by ascending path length; the members themselves are
/// kept, as a multiset.
fn sort_members(v: &mut Vec<FileData>)
    ensures
        final(v)@.to_multiset() == old(v)@.to_multiset(),
        final(v)@.len() == old(v)@.len(),
        sorted_by_path_len(final(v)@),
{
    if v.len() <= 1 {
        return ;
    }
    let mut i: usize = 1;
    while i < v.len()
        invariant
            1 <= i <= v@.len(),
            v@.len() == old(v)@.len(),
            v@.to_multiset() == old(v)@.to_multiset(),
            sorted_by_path_len(v@.subrange(0, i as int)),
        decreases v@.len() - i,
    {
        proof {
            assert forall|a: int, b: int|
                0 <= a <= b <= i && a != i && b != i implies v@[a].path@.len()
                <= v@[b].path@.len() by {
                assert(v@.subrange(0, i as int)[a] == v@[a]);
                assert(v@.subrange(0, i as int)[b] == v@[b]);
            }
        }
        let mut j: usize = i;
        while j > 0 && v[j - 1].path_len() > v[j].path_len()
            invariant
                0 <= j <= i < v@.len(),
                v@.len() == old(v)@.len(),
                v@.to_multiset() == old(v)@.to_multiset(),
                forall|a: int, b: int|
                    0 <= a <= b <= i && a != j && b != j ==> v@[a].path@.len()
                        <= v@[b].path@.len(),
                forall|b: int| j < b <= i ==> v@[j as int].path@.len() <= v@[b].path@.len(),
            decreases j,
        {
            let ghost u = v@;
            let x = v.remove(j);
            v.insert(j - 1, x);
            proof {
                let w = u.remove(j as int);
                assert(v@ == w.insert(j - 1, u[j as int]));
                vstd::seq_lib::to_multiset_remove(u, j as int);
                vstd::seq_lib::to_multiset_insert(w, j - 1, u[j as int]);
                assert(u.contains(u[j as int]));
                assert(v@.to_multiset() =~= u.to_multiset());
                assert(v@ =~= u.update(j - 1, u[j as int]).update(j as int, u[j - 1]));
            }
            j = j - 1;
        }
        proof {
            assert forall|a: int, b: int| 0 <= a <= b <= i implies v@[a].path@.len()
                <= v@[b].path@.len() by {
                if a == j && b != j {
                } else if b == j && a != j {
                    assert(v@[a].path@.len() <= v@[j - 1].path@.len());
                }
            }
            assert(sorted_by_path_len(v@.subrange(0, i + 1)));
        }
        i = i + 1;
    }
    proof {
        assert(v@.subrange(0, v@.len() as int) =~= v@);
    }
}

/// Exec comparison of the group order.
fn group_le_exec(a: &Group, b: &Group) -> (r: bool)
    requires
        a.paths@.len() >= 1,
        b.paths@.len() >= 1,
    ensures
        r == group_le(*a, *b),
{
    if a.count < b.count {
        true
    } else if a.count == b.count {
        let la = a.paths[a.paths.len() - 1].path_len();
        let lb = b.paths[b.paths.len() - 1].path_len();
        la <= lb
    } else {
        false
    }
}

/// Orders groups by ascending count, ties by the longest member's path
/// length; the groups themselves are kept, as a multiset, and so are their
/// members.
fn sort_groups(v: &mut Vec<Group>)
    requires
        forall|k: int| 0 <= k < old(v)@.len() ==> (#[trigger] old(v)@[k]).paths@.len() >= 1,
    ensures
        final(v)@.to_multiset() == old(v)@.to_multiset(),
        final(v)@.len() == old(v)@.len(),
        grouped_files(final(v)@) == grouped_files(old(v)@),
        sorted_groups(final(v)@),
{
    if v.len() <= 1 {
        return ;
    }
    let mut i: usize = 1;
    while i < v.len()
        invariant
            1 <= i <= v@.len(),
            v@.len() == old(v)@.len(),
            v@.to_multiset() == old(v)@.to_multiset(),
            grouped_files(v@) == grouped_files(old(v)@),
            forall|k: int| 0 <= k < v@.len() ==> (#[trigger] v@[k]).paths@.len() >= 1,
            sorted_groups(v@.subrange(0, i as int)),
        decreases v@.len() - i,
    {
        proof {
            assert forall|a: int, b: int|
                0 <= a <= b <= i && a != i && b != i implies group_le(v@[a], v@[b]) by {
                assert(v@.subrange(0, i as int)[a] == v@[a]);
                assert(v@.subrange(0, i as int)[b] == v@[b]);
            }
        }
        let mut j: usize = i;
        while j > 0 && !group_le_exec(&v[j - 1], &v[j])
            invariant
                0 <= j <= i < v@.len(),
                v@.len() == old(v)@.len(),
                v@.to_multiset() == old(v)@.to_multiset(),
                grouped_files(v@) == grouped_files(old(v)@),
                forall|k: int| 0 <= k < v@.len() ==> (#[trigger] v@[k]).paths@.len() >= 1,
                forall|a: int, b: int|
                    0 <= a <= b <= i && a != j && b != j ==> group_le(v@[a], v@[b]),
                forall|b: int| j < b <= i ==> group_le(v@[j as int], v@[b]),
            decreases j,
        {
            let ghost u = v@;
            let x = v.remove(j);
            proof {
                lemma_grouped_remove(u, j as int);
            }
            v.insert(j - 1, x);
            proof {
                let w = u.remove(j as int);
                lemma_grouped_insert(w, j - 1, x);
                assert(v@ == w.insert(j - 1, u[j as int]));
                vstd::seq_lib::to_multiset_remove(u, j as int);
                vstd::seq_lib::to_multiset_insert(w, j - 1, u[j as int]);
                assert(u.contains(u[j as int]));
                assert(v@.to_multiset() =~= u.to_multiset());
                assert(grouped_files(v@) =~= grouped_files(u));
                assert(v@ =~= u.update(j - 1, u[j as int]).update(j as int, u[j - 1]));
            }
            j = j - 1;
        }
        proof {
            assert forall|a: int, b: int| 0 <= a <= b <= i implies group_le(v@[a], v@[b]) by {
                if a == j && b != j {
                } else if b == j && a != j {
                    assert(group_le(v@[a], v@[j - 1]));
                }
            }
            assert(sorted_groups(v@.subrange(0, i + 1)));
        }
        i = i + 1;
    }
    proof {
        assert(v@.subrange(0, v@.len() as int) =~= v@);
    }
}

/// Consumes the candidate list and returns the duplicate groups together
/// with the comparison failures met along the way.
///
/// Each group is a full duplicate class of the candidates with at least
/// two members, every candidate that has a duplicate lands in exactly one
/// group exactly as often as it occurred, and the orders of members and of
/// groups are the deterministic ones stated by `group_ok` and
/// `sorted_groups` — whatever order the candidates arrived in.  Every
/// recorded failure is a read failure, and when every candidate carries
/// its content no failure is recorded at all.
pub fn get_groups(files: Vec<FileData>) -> (r: (Vec<Group>, Vec<TraversalError>))
    ensures
        valid_grouping(files@.to_multiset(), r.0@),
        sorted_groups(r.0@),
        forall|i: int| 0 <= i < r.1@.len() ==> (#[trigger] r.1@[i]).kind is IoReadError,
        (forall|i: int| 0 <= i < files@.len() ==> (#[trigger] files@[i]).content is Some)
            ==> r.1@.len() == 0,
{
    let ghost input_ms = files@.to_multiset();
    let mut pool = files;
    let mut groups: Vec<Group> = Vec::new();
    let mut errors: Vec<TraversalError> = Vec::new();
    while pool.len() > 0
        invariant
            forall|x: FileData|
                pool@.to_multiset().count(x) > 0 ==> #[trigger] class_of(
                    pool@.to_multiset(),
                    x,
                ) == class_of(input_ms, x),
            forall|x: FileData| #[trigger] pool@.to_multiset().count(x) <= input_ms.count(x),
            forall|x: FileData|
                has_duplicate(input_ms, x) ==> pool@.to_multiset().count(x)
                    + #[trigger] grouped_files(groups@).count(x) == input_ms.count(x),
            forall|x: FileData|
                !has_duplicate(input_ms, x) ==> #[trigger] grouped_files(groups@).count(x) == 0,
            forall|i: int| 0 <= i < groups@.len() ==> group_ok(#[trigger] groups@[i], input_ms),
            forall|i: int| 0 <= i < errors@.len() ==> (#[trigger] errors@[i]).kind is IoReadError,
            all_readable(input_ms) ==> errors@.len() == 0,
        decreases pool@.len(),
    {
        let ghost pool0 = pool@;
        let ghost pool0_ms = pool@.to_multiset();
        let rep = pool.pop().unwrap();
        let ghost repg = rep;
        let ghost rest0 = pool@;
        let ghost rest_ms = pool@.to_multiset();
        proof {
            assert(pool0 =~= pool@.push(repg));
            vstd::seq_lib::to_multiset_build(pool@, repg);
            assert(pool0_ms == rest_ms.insert(repg));
            assert(input_ms.count(repg) > 0) by {
                assert(pool0_ms.count(repg) == rest_ms.insert(repg).count(repg));
            }
            assert forall|x: FileData|
                #[trigger] pool@.to_multiset().count(x) > 0 implies input_ms.count(x) > 0 by {
                assert(pool0_ms.count(x) == rest_ms.insert(repg).count(x));
                assert(pool0_ms.count(x) <= input_ms.count(x));
            }
        }
        let mut dups: Vec<FileData> = Vec::new();
        let mut leftover: Vec<FileData> = Vec::new();
        while pool.len() > 0
            invariant
                pool@.to_multiset().add(dups@.to_multiset()).add(leftover@.to_multiset())
                    == rest_ms,
                forall|k: int| 0 <= k < dups@.len() ==> same_content(#[trigger] dups@[k], repg),
                forall|k: int|
                    0 <= k < leftover@.len() ==> !same_content(rep, #[trigger] leftover@[k]),
                rep == repg,
                input_ms.count(repg) > 0,
                forall|x: FileData|
                    #[trigger] pool@.to_multiset().count(x) > 0 ==> input_ms.count(x) > 0,
                forall|i: int|
                    0 <= i < errors@.len() ==> (#[trigger] errors@[i]).kind is IoReadError,
                all_readable(input_ms) ==> errors@.len() == 0,
            decreases pool@.len(),
        {
            let ghost inpool = pool@;
            let d = pool.pop().unwrap();
            let ghost dg = d;
            proof {
                assert(inpool =~= pool@.push(dg));
                vstd::seq_lib::to_multiset_build(pool@, dg);
                assert(inpool.to_multiset() == pool@.to_multiset().insert(dg));
                assert(input_ms.count(dg) > 0) by {
                    assert(inpool.to_multiset().count(dg) == pool@.to_multiset().insert(
                        dg,
                    ).count(dg));
                }
                assert forall|x: FileData|
                    #[trigger] pool@.to_multiset().count(x) > 0 implies input_ms.count(x)
                    > 0 by {
                    assert(inpool.to_multiset().count(x) == pool@.to_multiset().insert(dg).count(
                        x,
                    ));
                }
            }
            match rep.is_duplicate(&d) {
                Ok(true) => {
                    let ghost dups0 = dups@;
                    dups.push(d);
                    proof {
                        vstd::seq_lib::to_multiset_build(dups0, dg);
                        assert(pool@.to_multiset().add(dups@.to_multiset()).add(
                            leftover@.to_multiset(),
                        ) =~= rest_ms);
                    }
                },
                Ok(false) => {
                    let ghost left0 = leftover@;
                    leftover.push(d);
                    proof {
                        vstd::seq_lib::to_multiset_build(left0, dg);
                        assert(pool@.to_multiset().add(dups@.to_multiset()).add(
                            leftover@.to_multiset(),
                        ) =~= rest_ms);
                    }
                },
                Err(e) => {
                    proof {
                        if all_readable(input_ms) {
                            assert(input_ms.count(repg) > 0);
                            assert(input_ms.count(dg) > 0);
                            assert(false);
                        }
                    }
                    errors.push(e);
                    let ghost left0 = leftover@;
                    leftover.push(d);
                    proof {
                        vstd::seq_lib::to_multiset_build(left0, dg);
                        assert(pool@.to_multiset().add(dups@.to_multiset()).add(
                            leftover@.to_multiset(),
                        ) =~= rest_ms);
                    }
                },
            }
        }
        let ghost dups0 = dups@;
        let ghost left0 = leftover@;
        let ghost dms = dups@.to_multiset();
        let ghost lms = leftover@.to_multiset();
        proof {
            assert(pool@.to_multiset().len() == 0);
            assert(pool@.to_multiset() =~= Multiset::<FileData>::empty());
            assert(rest_ms =~= dms.add(lms));
            assert(pool0_ms =~= dms.add(lms).insert(repg));
            lemma_partition_step(input_ms, pool0_ms, repg, dups0, left0);
        }
        if dups.len() >= 1 {
            let ghost withrep = dups@.push(repg);
            dups.push(rep);
            proof {
                assert(dups@ == withrep);
                assert(dups@.to_multiset() == class_of(input_ms, repg));
                assert(dups@.to_multiset().len() == dups@.len());
            }
            let ghost members_ms = dups@.to_multiset();
            let ghost members_len = dups@.len();
            sort_members(&mut dups);
            let n = dups.len();
            let ghost sorted_members = dups@;
            let g = Group::new(n, dups);
            let ghost groups0 = groups@;
            groups.push(g);
            proof {
                lemma_grouped_push(groups0, g);
                assert(groups@.drop_last() =~= groups0);
                assert(g.paths@ == sorted_members);
                assert(g.paths@.to_multiset() == members_ms);
                // the new group is well formed
                assert(g.paths@.len() == members_len >= 2);
                assert(g.paths@.to_multiset().count(g.paths@[0]) > 0) by {
                    assert(g.paths@.contains(g.paths@[0]));
                }
                assert(same_content(g.paths@[0], repg));
                lemma_class_of_same(input_ms, g.paths@[0], repg);
                assert(group_ok(g, input_ms));
                assert forall|i: int|
                    0 <= i < groups@.len() implies group_ok(#[trigger] groups@[i], input_ms) by {
                    if i < groups0.len() {
                        assert(groups@[i] == groups0[i]);
                    } else {
                        assert(groups@[i] == g);
                    }
                }
                // conservation
                assert forall|x: FileData|
                    has_duplicate(input_ms, x) implies leftover@.to_multiset().count(x)
                    + #[trigger] grouped_files(groups@).count(x) == input_ms.count(x) by {
                    lemma_split_count(pool0_ms, dms, lms, repg, x);
                    assert(members_ms.count(x) == dms.insert(repg).count(x));
                    assert(pool0_ms.count(x) + grouped_files(groups0).count(x) == input_ms.count(
                        x,
                    ));
                }
                assert forall|x: FileData|
                    !has_duplicate(input_ms, x) implies #[trigger] grouped_files(
                    groups@,
                ).count(x) == 0 by {
                    assert(grouped_files(groups0).count(x) == 0);
                    if members_ms.count(x) > 0 {
                        assert(same_content(x, repg));
                        lemma_class_of_same(input_ms, x, repg);
                        assert(class_of(input_ms, x).len() == members_len);
                        assert(false);
                    }
                }
            }
        } else {
            proof {
                assert(!has_duplicate(input_ms, repg));
                assert forall|x: FileData|
                    has_duplicate(input_ms, x) implies leftover@.to_multiset().count(x)
                    + #[trigger] grouped_files(groups@).count(x) == input_ms.count(x) by {
                    lemma_split_count(pool0_ms, dms, lms, repg, x);
                    assert(x != repg);
                    assert(pool0_ms.count(x) + grouped_files(groups@).count(x) == input_ms.count(
                        x,
                    ));
                }
            }
        }
        proof {
            // the leftover pool stays below the candidates
            assert forall|x: FileData|
                #[trigger] leftover@.to_multiset().count(x) <= input_ms.count(x) by {
                lemma_split_count(pool0_ms, dms, lms, repg, x);
                assert(pool0_ms.count(x) <= input_ms.count(x));
            }
            // and is strictly smaller than the pool of this pass
            assert(leftover@.to_multiset().len() == leftover@.len());
            assert(dups0.to_multiset().len() == dups0.len());
            assert(rest0.to_multiset().len() == rest0.len());
            assert(dms.add(lms).len() == dms.len() + lms.len());
            assert(leftover@.len() <= rest0.len());
            assert(rest0.len() < pool0.len());
        }
        pool = leftover;
    }
    proof {
        assert(pool@.to_multiset().len() == 0);
        assert forall|x: FileData|
            #[trigger] grouped_files(groups@).count(x) == (if has_duplicate(input_ms, x) {
                input_ms.count(x)
            } else {
                0nat
            }) by {
            assert(pool@.to_multiset().count(x) == 0);
            if has_duplicate(input_ms, x) {
                assert(pool@.to_multiset().count(x) + grouped_files(groups@).count(x)
                    == input_ms.count(x));
            }
        }
        assert forall|k: int|
            0 <= k < groups@.len() implies (#[trigger] groups@[k]).paths@.len() >= 1 by {
            assert(group_ok(groups@[k], input_ms));
        }
    }
    let ghost groups_before = groups@;
    sort_groups(&mut groups);
    proof {
        assert forall|i: int|
            0 <= i < groups@.len() implies group_ok(#[trigger] groups@[i], input_ms) by {
            let g = groups@[i];
            assert(groups@.contains(g));
            assert(groups@.to_multiset().count(g) > 0);
            assert(groups_before.to_multiset().count(g) > 0);
            assert(groups_before.contains(g));
            let k = choose|k: int| 0 <= k < groups_before.len() && groups_before[k] == g;
            assert(group_ok(groups_before[k], input_ms));
        }
        assert(valid_grouping(input_ms, groups@));
        if forall|i: int| 0 <= i < files@.len() ==> (#[trigger] files@[i]).content is Some {
            assert forall|x: FileData| #[trigger] input_ms.count(x) > 0 implies x.content
                is Some by {
                assert(files@.contains(x));
                let k = choose|k: int| 0 <= k < files@.len() && files@[k] == x;
                assert(files@[k].content is Some);
            }
            assert(all_readable(input_ms));
        }
    }
    (groups, errors)
}

} // verus!
