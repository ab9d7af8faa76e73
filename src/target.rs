//! Reported build-output folders and the orders they can be listed in.

use vstd::prelude::*;

use crate::tree::{TargetView, Timestamp};

verus! {

/// A build-output folder found by a scan: its path as the names from the
/// scan's root down, the total size of the regular files in it, and its
/// last modification time.
#[derive(Debug)]
pub struct TargetItem {
    pub path: Vec<String>,
    pub size: u64,
    pub time: Timestamp,
}

impl View for TargetItem {
    type V = TargetView;

    open spec fn view(&self) -> TargetView {
        (self.path.deep_view(), self.size, self.time)
    }
}

impl TargetItem {
    pub fn new(path: Vec<String>, size: u64, time: Timestamp) -> (r: TargetItem)
        ensures
            r.path == path,
            r.size == size,
            r.time == time,
    {
        TargetItem { path, size, time }
    }
}

/// The order to list reported folders in.
#[derive(Debug, Clone, Copy, PartialEq, Eq, Structural)]
pub enum SortBy {
    /// Largest first.
    Size,
    /// Smallest first.
    Rsize,
    /// Oldest first.
    Time,
    /// Newest first.
    Rtime,
}

/// A key that orders moments by their seconds, then by their nanoseconds:
/// `nanos` is below 2^32, so it never reaches into the seconds.
pub open spec fn time_key(t: Timestamp) -> int {
    t.secs * 0x1_0000_0000 + t.nanos
}

/// The key that `by` lists folders by, smallest key first.
pub open spec fn sort_key(by: SortBy, v: TargetView) -> int {
    match by {
        SortBy::Size => -(v.1 as int),
        SortBy::Rsize => v.1 as int,
        SortBy::Time => time_key(v.2),
        SortBy::Rtime => -time_key(v.2),
    }
}

/// `x` put into `s` after the last element whose key is not larger than its
/// own, and after every element behind that.
pub open spec fn insert_sorted(s: Seq<TargetView>, x: TargetView, by: SortBy) -> Seq<TargetView>
    decreases s.len(),
{
    if s.len() == 0 {
        seq![x]
    } else if sort_key(by, s.last()) <= sort_key(by, x) {
        s.push(x)
    } else {
        insert_sorted(s.drop_last(), x, by).push(s.last())
    }
}

/// `s` in the order `by`, elements with equal keys in the order they had:
/// a stable sort by `sort_key`.
pub open spec fn sorted_by(s: Seq<TargetView>, by: SortBy) -> Seq<TargetView>
    decreases s.len(),
{
    if s.len() == 0 {
        s
    } else {
        insert_sorted(sorted_by(s.drop_last(), by), s.last(), by)
    }
}

pub open spec fn views(s: Seq<TargetItem>) -> Seq<TargetView> {
    s.map_values(|x: TargetItem| x@)
}

fn key_of(item: &TargetItem, by: SortBy) -> (k: i128)
    ensures
        k == sort_key(by, item@),
{
    let t = item.time.secs as i128 * 0x1_0000_0000 + item.time.nanos as i128;
    match by {
        SortBy::Size => -(item.size as i128),
        SortBy::Rsize => item.size as i128,
        SortBy::Time => t,
        SortBy::Rtime => -t,
    }
}

/// Orders reported folders by `by`; folders with equal keys keep the order
/// they came in.
pub fn sort_targets(targets: Vec<TargetItem>, by: SortBy) -> (r: Vec<TargetItem>)
    ensures
        views(r@) == sorted_by(views(targets@), by),
{
    let ghost orig = views(targets@);
    let n = targets.len();
    let mut rest = targets;
    let mut out: Vec<TargetItem> = Vec::new();
    let mut k: usize = 0;
    while rest.len() > 0
        invariant
            k + rest@.len() == n,
            n == orig.len(),
            views(rest@) == orig.skip(k as int),
            views(out@) == sorted_by(orig.take(k as int), by),
        decreases rest@.len(),
    {
        let ghost old_rest = rest@;
        let x = rest.remove(0);
        proof {
            assert(views(old_rest)[0] == old_rest[0]@);
            assert(orig.skip(k as int)[0] == orig[k as int]);
            assert(x@ == orig[k as int]);
            assert(rest@ =~= old_rest.skip(1));
            assert forall|i: int| 0 <= i < rest@.len() implies views(rest@)[i] == orig.skip(
                k + 1,
            )[i] by {
                assert(views(old_rest)[i + 1] == orig.skip(k as int)[i + 1]);
            }
            assert(views(rest@) =~= orig.skip(k + 1));
        }
        let kx = key_of(&x, by);
        let ghost s = views(out@);
        let mut j = out.len();
        assert(s.take(j as int) =~= s);
        assert(s.skip(j as int) =~= Seq::<TargetView>::empty());
        assert(insert_sorted(s, x@, by) =~= insert_sorted(s.take(j as int), x@, by) + s.skip(j as int));
        while j > 0 && key_of(&out[j - 1], by) > kx
            invariant
                j <= out@.len(),
                s == views(out@),
                kx == sort_key(by, x@),
                insert_sorted(s, x@, by) == insert_sorted(s.take(j as int), x@, by) + s.skip(
                    j as int,
                ),
            decreases j,
        {
            proof {
                let t = s.take(j as int);
                assert(t.drop_last() =~= s.take(j - 1));
                assert(t.last() == s[j - 1]);
                assert(insert_sorted(s.take(j - 1), x@, by).push(s[j - 1]) + s.skip(j as int)
                    =~= insert_sorted(s.take(j - 1), x@, by) + s.skip(j - 1));
            }
            j = j - 1;
        }
        proof {
            let t = s.take(j as int);
            if j > 0 {
                assert(t.last() == s[j - 1]);
                assert(insert_sorted(t, x@, by) == t.push(x@));
            } else {
                assert(insert_sorted(t, x@, by) == seq![x@]);
            }
            assert(orig.take(k + 1).drop_last() =~= orig.take(k as int));
            assert(orig.take(k + 1).last() == x@);
        }
        out.insert(j, x);
        proof {
            assert(views(out@) =~= s.take(j as int).push(x@) + s.skip(j as int));
        }
        k = k + 1;
    }
    assert(orig.take(n as int) =~= orig);
    out
}

/// Every key of `s` is at most the next one.
pub open spec fn is_ordered(s: Seq<TargetView>, by: SortBy) -> bool {
    forall|i: int, j: int| 0 <= i < j < s.len() ==> sort_key(by, s[i]) <= sort_key(by, s[j])
}

/// Where `insert_sorted` puts an element with key `kx` in `s`.
pub open spec fn insert_point(s: Seq<TargetView>, kx: int, by: SortBy) -> nat
    decreases s.len(),
{
    if s.len() == 0 {
        0
    } else if sort_key(by, s.last()) <= kx {
        s.len()
    } else {
        insert_point(s.drop_last(), kx, by)
    }
}

/// Inserting into `a + b`, where every key of `a` is at most `x`'s and every
/// key of `b` is larger, puts `x` between the two.
pub proof fn lemma_insert_between(a: Seq<TargetView>, b: Seq<TargetView>, x: TargetView, by: SortBy)
    requires
        forall|i: int| 0 <= i < a.len() ==> sort_key(by, #[trigger] a[i]) <= sort_key(by, x),
        forall|i: int| 0 <= i < b.len() ==> sort_key(by, #[trigger] b[i]) > sort_key(by, x),
    ensures
        insert_sorted(a + b, x, by) == a.push(x) + b,
    decreases b.len(),
{
    if b.len() == 0 {
        assert(a + b =~= a);
        if a.len() > 0 {
            assert(sort_key(by, a.last()) <= sort_key(by, x));
        }
        assert(a.push(x) + b =~= a.push(x));
    } else {
        let s = a + b;
        assert(s.last() == b.last());
        assert(sort_key(by, b.last()) > sort_key(by, x));
        assert(s.drop_last() =~= a + b.drop_last());
        lemma_insert_between(a, b.drop_last(), x, by);
        assert(a.push(x) + b.drop_last() + seq![b.last()] =~= a.push(x) + b);
        assert((a.push(x) + b.drop_last()).push(b.last()) =~= a.push(x) + b);
    }
}

/// In an ordered sequence the keys before the insertion point are at most
/// `kx`, and those after it are larger.
pub proof fn lemma_insert_point(s: Seq<TargetView>, kx: int, by: SortBy)
    requires
        is_ordered(s, by),
    ensures
        insert_point(s, kx, by) <= s.len(),
        forall|i: int|
            0 <= i < insert_point(s, kx, by) ==> sort_key(by, #[trigger] s[i]) <= kx,
        forall|i: int|
            insert_point(s, kx, by) <= i < s.len() ==> sort_key(by, #[trigger] s[i]) > kx,
    decreases s.len(),
{
    if s.len() > 0 {
        if sort_key(by, s.last()) <= kx {
            assert forall|i: int| 0 <= i < s.len() implies sort_key(by, #[trigger] s[i]) <= kx by {
                if i < s.len() - 1 {
                    assert(sort_key(by, s[i]) <= sort_key(by, s[s.len() - 1]));
                }
            }
        } else {
            let t = s.drop_last();
            assert(is_ordered(t, by));
            lemma_insert_point(t, kx, by);
            assert forall|i: int| 0 <= i < insert_point(s, kx, by) implies sort_key(
                by,
                #[trigger] s[i],
            ) <= kx by {
                assert(s[i] == t[i]);
            }
            assert forall|i: int| insert_point(s, kx, by) <= i < s.len() implies sort_key(
                by,
                #[trigger] s[i],
            ) > kx by {
                if i < s.len() - 1 {
                    assert(s[i] == t[i]);
                }
            }
        }
    }
}

/// Inserting into an ordered sequence keeps it ordered, adds `x`, and keeps
/// every other element.
pub proof fn lemma_insert_sorted(s: Seq<TargetView>, x: TargetView, by: SortBy)
    requires
        is_ordered(s, by),
    ensures
        ({
            let p = insert_point(s, sort_key(by, x), by) as int;
            insert_sorted(s, x, by) == s.take(p).push(x) + s.skip(p)
        }),
        is_ordered(insert_sorted(s, x, by), by),
        insert_sorted(s, x, by).to_multiset() == s.to_multiset().insert(x),
{
    let kx = sort_key(by, x);
    lemma_insert_point(s, kx, by);
    let p = insert_point(s, kx, by) as int;
    let a = s.take(p);
    let b = s.skip(p);
    assert(a + b =~= s);
    lemma_insert_between(a, b, x, by);
    let r = a.push(x) + b;
    assert forall|i: int, j: int| 0 <= i < j < r.len() implies sort_key(by, r[i]) <= sort_key(
        by,
        r[j],
    ) by {
        if j < p {
            assert(r[i] == s[i] && r[j] == s[j]);
        } else if j == p {
            assert(r[j] == x);
            assert(r[i] == s[i]);
        } else if i > p {
            assert(r[i] == s[i - 1] && r[j] == s[j - 1]);
        } else if i == p {
            assert(r[i] == x && r[j] == s[j - 1]);
        } else {
            assert(r[i] == s[i] && r[j] == s[j - 1]);
        }
    }
    vstd::seq_lib::lemma_multiset_commutative(a.push(x), b);
    vstd::seq_lib::lemma_multiset_commutative(a, b);
    assert(a.push(x) =~= a + seq![x]);
    vstd::seq_lib::lemma_multiset_commutative(a, seq![x]);
    assert(seq![x].to_multiset() =~= vstd::multiset::Multiset::<TargetView>::empty().insert(x)) by {
        broadcast use vstd::seq_lib::group_to_multiset_ensures;
        assert(seq![x] =~= Seq::<TargetView>::empty().push(x));
    }
    assert(r.to_multiset() =~= s.to_multiset().insert(x));
}

/// A stable sort lists every key at most the next one, and holds exactly the
/// elements it was given.
pub proof fn lemma_sorted_by(s: Seq<TargetView>, by: SortBy)
    ensures
        is_ordered(sorted_by(s, by), by),
        sorted_by(s, by).to_multiset() == s.to_multiset(),
    decreases s.len(),
{
    if s.len() > 0 {
        lemma_sorted_by(s.drop_last(), by);
        lemma_insert_sorted(sorted_by(s.drop_last(), by), s.last(), by);
        assert(s =~= s.drop_last().push(s.last()));
        broadcast use vstd::seq_lib::group_to_multiset_ensures;
        assert(s.to_multiset() == s.drop_last().to_multiset().insert(s.last()));
    } else {
        assert(sorted_by(s, by) == s);
    }
}

/// `by2` lists folders by the negated key of `by1`.
pub open spec fn opposite(by1: SortBy, by2: SortBy) -> bool {
    ||| by1 == SortBy::Size && by2 == SortBy::Rsize
    ||| by1 == SortBy::Rsize && by2 == SortBy::Size
    ||| by1 == SortBy::Time && by2 == SortBy::Rtime
    ||| by1 == SortBy::Rtime && by2 == SortBy::Time
}

/// No two elements of `s` have the same key under `by`.
pub open spec fn keys_distinct(s: Seq<TargetView>, by: SortBy) -> bool {
    forall|i: int, j: int|
        0 <= i < j < s.len() ==> sort_key(by, #[trigger] s[i]) != sort_key(by, #[trigger] s[j])
}

/// Sorting keeps the elements, so none has the key of an `x` that no
/// element had.
proof fn lemma_sorted_keys_differ(t: Seq<TargetView>, x: TargetView, by: SortBy)
    requires
        forall|j: int| 0 <= j < t.len() ==> sort_key(by, #[trigger] t[j]) != sort_key(by, x),
    ensures
        forall|i: int|
            0 <= i < sorted_by(t, by).len() ==> sort_key(by, #[trigger] sorted_by(t, by)[i])
                != sort_key(by, x),
{
    let b = sorted_by(t, by);
    lemma_sorted_by(t, by);
    assert forall|i: int| 0 <= i < b.len() implies sort_key(by, #[trigger] b[i]) != sort_key(
        by,
        x,
    ) by {
        assert(b.contains(b[i]));
        vstd::seq_lib::to_multiset_contains(b, b[i]);
        vstd::seq_lib::to_multiset_contains(t, b[i]);
        let j = choose|j: int| 0 <= j < t.len() && t[j] == b[i];
    }
}

proof fn lemma_opposite_keys(by1: SortBy, by2: SortBy)
    requires
        opposite(by1, by2),
    ensures
        forall|v: TargetView| sort_key(by2, v) == -sort_key(by1, v),
{
}

/// Inserting into an ordered list and reversing is inserting into the
/// reversed list by the opposite order, when `x` ties with nothing.
proof fn lemma_insert_reverse(b1: Seq<TargetView>, x: TargetView, by1: SortBy, by2: SortBy)
    requires
        opposite(by1, by2),
        is_ordered(b1, by1),
        forall|i: int| 0 <= i < b1.len() ==> sort_key(by1, #[trigger] b1[i]) != sort_key(by1, x),
    ensures
        insert_sorted(b1.reverse(), x, by2) == insert_sorted(b1, x, by1).reverse(),
{
    let k1 = sort_key(by1, x);
    lemma_insert_point(b1, k1, by1);
    let p = insert_point(b1, k1, by1) as int;
    lemma_insert_sorted(b1, x, by1);
    lemma_opposite_keys(by1, by2);
    let lo = b1.take(p);
    let hi = b1.skip(p);
    let a = hi.reverse();
    let b = lo.reverse();
    assert(b1.reverse() =~= a + b);
    assert forall|i: int| 0 <= i < a.len() implies sort_key(by2, #[trigger] a[i]) <= sort_key(
        by2,
        x,
    ) by {
        assert(a[i] == b1[p + hi.len() - 1 - i]);
    }
    assert forall|i: int| 0 <= i < b.len() implies sort_key(by2, #[trigger] b[i]) > sort_key(
        by2,
        x,
    ) by {
        assert(b[i] == b1[lo.len() - 1 - i]);
    }
    lemma_insert_between(a, b, x, by2);
    assert((a.push(x) + b).reverse() =~= lo.push(x) + hi);
}

/// When no two folders tie, sorting in an order and in its opposite gives
/// the same list, reversed.
pub proof fn lemma_opposite_orders_reverse(s: Seq<TargetView>, by1: SortBy, by2: SortBy)
    requires
        opposite(by1, by2),
        keys_distinct(s, by1),
    ensures
        sorted_by(s, by2) == sorted_by(s, by1).reverse(),
    decreases s.len(),
{
    if s.len() == 0 {
        assert(sorted_by(s, by1).reverse() =~= s);
    } else {
        let t = s.drop_last();
        let x = s.last();
        assert(keys_distinct(t, by1));
        lemma_opposite_orders_reverse(t, by1, by2);
        lemma_sorted_by(t, by1);
        assert forall|j: int| 0 <= j < t.len() implies sort_key(by1, #[trigger] t[j]) != sort_key(
            by1,
            x,
        ) by {
            assert(s[j] == t[j]);
        }
        lemma_sorted_keys_differ(t, x, by1);
        lemma_insert_reverse(sorted_by(t, by1), x, by1, by2);
    }
}

/// With no two folders of the same size, listing largest first and listing
/// smallest first give the same list, reversed.
pub proof fn lemma_size_orders_reverse(s: Seq<TargetView>)
    requires
        forall|i: int, j: int| 0 <= i < j < s.len() ==> (#[trigger] s[i]).1 != (#[trigger] s[j]).1,
    ensures
        sorted_by(s, SortBy::Rsize) == sorted_by(s, SortBy::Size).reverse(),
{
    assert(keys_distinct(s, SortBy::Size));
    lemma_opposite_orders_reverse(s, SortBy::Size, SortBy::Rsize);
}

/// The time key orders moments by seconds first, then by nanoseconds.
pub proof fn lemma_time_key_order(a: Timestamp, b: Timestamp)
    ensures
        time_key(a) < time_key(b) <==> (a.secs < b.secs || (a.secs == b.secs && a.nanos < b.nanos)),
        time_key(a) == time_key(b) <==> a == b,
{
    if a.secs < b.secs {
        assert(a.secs * 0x1_0000_0000 + 0x1_0000_0000 <= b.secs * 0x1_0000_0000) by (nonlinear_arith)
            requires
                a.secs < b.secs,
        ;
    } else if a.secs > b.secs {
        assert(b.secs * 0x1_0000_0000 + 0x1_0000_0000 <= a.secs * 0x1_0000_0000) by (nonlinear_arith)
            requires
                b.secs < a.secs,
        ;
    }
}

} // verus!
