//! How a stream of items falls into files of bounded size: every file but the
//! last takes exactly the limit, the last takes what is left, and a stream
//! without items still has its one, empty file.

use vstd::prelude::*;

verus! {

/// The parts laid end to end.
pub open spec fn joined<T>(parts: Seq<Seq<T>>) -> Seq<T>
    decreases parts.len(),
{
    if parts.len() == 0 {
        Seq::empty()
    } else {
        joined(parts.drop_last()) + parts.last()
    }
}

/// How many files `n` items need where each holds at most `limit`: `n`
/// divided by `limit` and rounded up, but never less than one.
pub open spec fn file_count(n: nat, limit: nat) -> nat {
    if n == 0 {
        1
    } else {
        ((n - 1) / (limit as int) + 1) as nat
    }
}

/// Where file `k` ends among `n` items.
pub open spec fn group_end(n: nat, limit: nat, k: int) -> int {
    if (k + 1) * limit <= n {
        (k + 1) * limit
    } else {
        n as int
    }
}

/// The items of file `k`.
pub open spec fn group<T>(items: Seq<T>, limit: nat, k: int) -> Seq<T> {
    items.subrange(k * limit, group_end(items.len(), limit, k))
}

/// The items of each file, in the order of the files.
pub open spec fn groups<T>(items: Seq<T>, limit: nat) -> Seq<Seq<T>> {
    Seq::new(file_count(items.len(), limit), |k: int| group(items, limit, k))
}

/// `n` items have gone into `files` files, and the last of these has room
/// for `room` more. Only the first file of a run is ever empty.
pub open spec fn filled(n: nat, limit: nat, files: nat, room: nat) -> bool {
    &&& limit > 0
    &&& files >= 1
    &&& room <= limit
    &&& n + room == files * limit
    &&& (room < limit || files == 1)
}

/// One more times `limit` is `limit` more.
pub proof fn lemma_mul_step(k: int, limit: int)
    ensures
        (k + 1) * limit == k * limit + limit,
{
    assert((k + 1) * limit == k * limit + limit) by (nonlinear_arith);
}

/// A multiple of `limit` is no less than a smaller multiple.
pub proof fn lemma_mul_ordered(j: int, k: int, limit: int)
    requires
        j <= k,
        limit >= 0,
    ensures
        j * limit <= k * limit,
{
    assert(j * limit <= k * limit) by (nonlinear_arith)
        requires
            j <= k,
            limit >= 0,
    ;
}

/// Where `n` items have gone into `files` files, `files` is the number of
/// files that `n` items need.
pub proof fn lemma_filled_count(n: nat, limit: nat, files: nat, room: nat)
    requires
        filled(n, limit, files, room),
    ensures
        file_count(n, limit) == files,
{
    lemma_mul_step(files - 1, limit as int);
    if n == 0 {
        if files > 1 {
            lemma_mul_ordered(2, files as int, limit as int);
        }
    } else {
        let q = files - 1;
        let r = limit - room - 1;
        assert(n - 1 == q * limit + r);
        if room == limit {
            assert(files * limit == limit) by (nonlinear_arith)
                requires
                    files == 1,
            ;
        }
        vstd::arithmetic::div_mod::lemma_fundamental_div_mod_converse(
            n - 1,
            limit as int,
            q,
            r,
        );
    }
}

/// The files cover the items: file `k` begins where file `k - 1` ends, the
/// first begins with the first item and the last ends with the last.
pub proof fn lemma_group_bounds(n: nat, limit: nat, k: int)
    requires
        limit > 0,
        0 <= k < file_count(n, limit),
    ensures
        0 <= k * limit <= group_end(n, limit, k) <= n,
        k + 1 < file_count(n, limit) ==> group_end(n, limit, k) == (k + 1) * limit,
        k + 1 == file_count(n, limit) ==> group_end(n, limit, k) == n,
        n > 0 ==> k * limit < n,
{
    lemma_mul_step(k, limit as int);
    lemma_mul_ordered(0, k, limit as int);
    if n > 0 {
        let q = (n - 1) / (limit as int);
        vstd::arithmetic::div_mod::lemma_fundamental_div_mod(n - 1, limit as int);
        vstd::arithmetic::div_mod::lemma_mod_bound(n - 1, limit as int);
        assert(limit * q == q * limit) by (nonlinear_arith);
        lemma_mul_ordered(k, q, limit as int);
        lemma_mul_step(q, limit as int);
        if k + 1 <= q {
            lemma_mul_ordered(k + 1, q, limit as int);
        }
    }
}

/// Items that fit into the room left go to the end of the last file; no
/// other file changes and none is added.
pub proof fn lemma_fill<T>(items: Seq<T>, more: Seq<T>, limit: nat, files: nat, room: nat)
    requires
        filled(items.len(), limit, files, room),
        more.len() <= room,
    ensures
        groups(items + more, limit) == groups(items, limit).update(
            files - 1,
            groups(items, limit)[files - 1] + more,
        ),
        groups(items, limit).len() == files,
        more.len() > 0 ==> filled((items + more).len(), limit, files, (room - more.len()) as nat),
{
    let n = items.len();
    let all = items + more;
    lemma_filled_count(n, limit, files, room);
    if more.len() == 0 {
        assert(all =~= items);
        assert(groups(items, limit)[files - 1] + more =~= groups(items, limit)[files - 1]);
        assert(groups(items, limit) =~= groups(items, limit).update(
            files - 1,
            groups(items, limit)[files - 1],
        ));
    } else {
        assert(filled(all.len(), limit, files, (room - more.len()) as nat));
        lemma_filled_count(all.len(), limit, files, (room - more.len()) as nat);
        let old = groups(items, limit);
        let new = groups(all, limit);
        assert forall|k: int| 0 <= k < files implies #[trigger] new[k] == old.update(
            files - 1,
            old[files - 1] + more,
        )[k] by {
            lemma_group_bounds(n, limit, k);
            lemma_group_bounds(all.len(), limit, k);
            if k < files - 1 {
                assert(new[k] =~= old[k]);
            } else {
                assert(new[k] =~= old[k] + more);
            }
        }
        assert(new =~= old.update(files - 1, old[files - 1] + more));
    }
}

/// Where the last file is full, the items that follow begin a new file; no
/// file before it changes.
pub proof fn lemma_roll<T>(items: Seq<T>, more: Seq<T>, limit: nat, files: nat)
    requires
        filled(items.len(), limit, files, 0),
        0 < more.len() <= limit,
    ensures
        groups(items + more, limit) == groups(items, limit).push(more),
        groups(items, limit).len() == files,
        filled((items + more).len(), limit, files + 1, (limit - more.len()) as nat),
{
    let n = items.len();
    let all = items + more;
    lemma_filled_count(n, limit, files, 0);
    lemma_mul_step(files as int, limit as int);
    assert(filled(all.len(), limit, files + 1, (limit - more.len()) as nat));
    lemma_filled_count(all.len(), limit, files + 1, (limit - more.len()) as nat);
    let old = groups(items, limit);
    let new = groups(all, limit);
    assert forall|k: int| 0 <= k < files + 1 implies #[trigger] new[k] == old.push(more)[k] by {
        lemma_group_bounds(all.len(), limit, k);
        if k < files {
            lemma_group_bounds(n, limit, k);
            assert(new[k] =~= old[k]);
        } else {
            assert(new[k] =~= more);
        }
    }
    assert(new =~= old.push(more));
}

/// The number of files is the number of items divided by the limit, rounded
/// up; without items it is one.
pub proof fn lemma_file_count_rounds_up(n: nat, limit: nat)
    requires
        limit > 0,
    ensures
        n == 0 ==> file_count(n, limit) == 1,
        n > 0 ==> file_count(n, limit) == (n + limit - 1) / (limit as int),
        (file_count(n, limit) - 1) * limit <= n <= file_count(n, limit) * limit,
        n > 0 ==> (file_count(n, limit) - 1) * limit < n,
{
    let c = file_count(n, limit) as int;
    lemma_mul_step(c - 1, limit as int);
    if n > 0 {
        let q = (n - 1) / (limit as int);
        vstd::arithmetic::div_mod::lemma_fundamental_div_mod(n - 1, limit as int);
        vstd::arithmetic::div_mod::lemma_mod_bound(n - 1, limit as int);
        assert(limit * q == q * limit) by (nonlinear_arith);
        let r = (n - 1) % (limit as int);
        lemma_mul_step(q, limit as int);
        assert(n + limit - 1 == (q + 1) * limit + r);
        vstd::arithmetic::div_mod::lemma_fundamental_div_mod_converse(
            n + limit - 1,
            limit as int,
            q + 1,
            r,
        );
    } else {
        assert(0 * limit == 0) by (nonlinear_arith);
    }
}

/// Every file but the last holds exactly `limit` items. The last holds the
/// rest: at most `limit`, and at least one unless there are no items at all.
pub proof fn lemma_group_sizes<T>(items: Seq<T>, limit: nat, k: int)
    requires
        limit > 0,
        0 <= k < file_count(items.len(), limit),
    ensures
        groups(items, limit)[k].len() <= limit,
        k + 1 < file_count(items.len(), limit) ==> groups(items, limit)[k].len() == limit,
        k + 1 == file_count(items.len(), limit) ==> groups(items, limit)[k].len() == items.len()
            - k * limit,
        items.len() > 0 ==> groups(items, limit)[k].len() > 0,
{
    lemma_group_bounds(items.len(), limit, k);
    lemma_mul_step(k, limit as int);
}

/// The files, laid end to end in their order, are the items.
pub proof fn lemma_groups_join<T>(items: Seq<T>, limit: nat)
    requires
        limit > 0,
    ensures
        joined(groups(items, limit)) == items,
{
    let gs = groups(items, limit);
    lemma_join_prefix(items, limit, gs.len());
    lemma_group_bounds(items.len(), limit, gs.len() - 1);
    assert(gs.take(gs.len() as int) =~= gs);
    assert(items.subrange(0, items.len() as int) =~= items);
}

proof fn lemma_join_prefix<T>(items: Seq<T>, limit: nat, j: nat)
    requires
        limit > 0,
        j <= file_count(items.len(), limit),
    ensures
        joined(groups(items, limit).take(j as int)) == items.subrange(
            0,
            if j == 0 {
                0
            } else {
                group_end(items.len(), limit, j - 1)
            },
        ),
    decreases j,
{
    let gs = groups(items, limit);
    if j == 0 {
        assert(gs.take(0) =~= Seq::<Seq<T>>::empty());
        assert(items.subrange(0, 0) =~= Seq::<T>::empty());
    } else {
        lemma_join_prefix(items, limit, (j - 1) as nat);
        lemma_group_bounds(items.len(), limit, j - 1);
        assert(gs.take(j as int).drop_last() =~= gs.take(j - 1));
        assert(gs.take(j as int).last() == gs[j - 1]);
        if j > 1 {
            lemma_group_bounds(items.len(), limit, j - 2);
        } else {
            assert(0 * limit == 0) by (nonlinear_arith);
        }
        let start = (j - 1) * limit;
        let end = group_end(items.len(), limit, j - 1);
        assert(items.subrange(0, start) + items.subrange(start, end) =~= items.subrange(0, end));
    }
}

/// Laying end to end commutes with putting one list behind another.
pub proof fn lemma_joined_concat<T>(a: Seq<Seq<T>>, b: Seq<Seq<T>>)
    ensures
        joined(a + b) == joined(a) + joined(b),
    decreases b.len(),
{
    if b.len() == 0 {
        assert(a + b =~= a);
        assert(joined(a) + joined(b) =~= joined(a));
    } else {
        lemma_joined_concat(a, b.drop_last());
        assert((a + b).drop_last() =~= a + b.drop_last());
        assert((a + b).last() == b.last());
        assert(joined(a) + (joined(b.drop_last()) + b.last()) =~= joined(a) + joined(
            b.drop_last(),
        ) + b.last());
    }
}

/// Laying the parts of each group end to end, and then the groups, gives
/// what laying all the parts end to end gives.
pub proof fn lemma_joined_twice<T>(parts: Seq<Seq<Seq<T>>>)
    ensures
        joined(Seq::new(parts.len(), |k: int| joined(parts[k]))) == joined(joined(parts)),
    decreases parts.len(),
{
    let each = Seq::new(parts.len(), |k: int| joined(parts[k]));
    if parts.len() > 0 {
        let front = parts.drop_last();
        lemma_joined_twice(front);
        assert(each.drop_last() =~= Seq::new(front.len(), |k: int| joined(front[k])));
        lemma_joined_concat(joined(front), parts.last());
    }
}

} // verus!
