//! Merging the per-worker results into one sorted report.
//!
//! The partition assigns every client to exactly one worker, so the
//! per-worker result lists must be disjoint by client id; the merge checks
//! that instead of silently overwriting, and a collision is surfaced as the
//! one fatal invariant violation the engine can observe. The surviving rows
//! are ordered by ascending client id for the report.

use vstd::prelude::*;

use crate::account::ClientAccount;

verus! {

broadcast use
    vstd::seq_lib::group_to_multiset_ensures,
    vstd::multiset::group_multiset_axioms;

/// A violation of the partition invariant: the same client id surfaced in
/// two result rows, which only a routing bug can produce.
#[derive(Debug, Clone, Copy, PartialEq, Eq, Structural)]
pub enum MergeError {
    DuplicateClient(u16),
}

/// All rows of a list of row lists, in order, first list first.
pub open spec fn concat_all(parts: Seq<Seq<ClientAccount>>) -> Seq<ClientAccount>
    decreases parts.len(),
{
    if parts.len() == 0 {
        Seq::empty()
    } else {
        parts[0] + concat_all(parts.drop_first())
    }
}

/// The rows the merge works on: every worker's rows, concatenated.
pub open spec fn all_rows(parts: Seq<Vec<ClientAccount>>) -> Seq<ClientAccount> {
    concat_all(parts.map_values(|v: Vec<ClientAccount>| v@))
}

/// Rows in strictly ascending client order: sorted, and no client twice.
pub open spec fn strictly_sorted_by_client(rows: Seq<ClientAccount>) -> bool {
    forall|i: int, j: int| 0 <= i < j < rows.len() ==> rows[i].client < rows[j].client
}

/// Two distinct rows carry the client id `c`.
pub open spec fn duplicate_client_at(rows: Seq<ClientAccount>, c: u16) -> bool {
    exists|i: int, j: int| 0 <= i < j < rows.len() && rows[i].client == c && rows[j].client == c
}

/// Some client id appears in two distinct rows.
pub open spec fn has_duplicate_client(rows: Seq<ClientAccount>) -> bool {
    exists|c: u16| duplicate_client_at(rows, c)
}

/// A value sitting at two positions of a sequence occurs at least twice in
/// its multiset.
proof fn lemma_count_two_of(s: Seq<ClientAccount>, i: int, j: int)
    requires
        0 <= i < j < s.len(),
        s[i] == s[j],
    ensures
        s.to_multiset().count(s[i]) >= 2,
{
    let v = s[i];
    s.remove_ensures(i);
    assert(s.remove(i)[j - 1] == v);
    assert(s.remove(i).contains(v));
    assert(s.remove(i).to_multiset() == s.to_multiset().remove(v));
    assert(s.remove(i).to_multiset().count(v) > 0);
}

/// A value occurring at least twice in a sequence's multiset sits at two
/// distinct positions of the sequence.
proof fn lemma_two_indexes_of(s: Seq<ClientAccount>, v: ClientAccount)
    requires
        s.to_multiset().count(v) >= 2,
    ensures
        exists|i: int, j: int| 0 <= i < j < s.len() && s[i] == v && s[j] == v,
{
    assert(s.contains(v));
    let i = choose|i: int| 0 <= i < s.len() && s[i] == v;
    assert(s.remove(i).to_multiset() == s.to_multiset().remove(v));
    assert(s.remove(i).to_multiset().count(v) > 0);
    assert(s.remove(i).contains(v));
    let k = choose|k: int| 0 <= k < s.remove(i).len() && s.remove(i)[k] == v;
    s.remove_ensures(i);
    if k < i {
        assert(s[k] == v);
        assert(0 <= k < i < s.len() && s[k] == v && s[i] == v);
    } else {
        assert(s[k + 1] == v);
        assert(0 <= i < k + 1 < s.len() && s[i] == v && s[k + 1] == v);
    }
}

/// Duplicated client ids survive any reordering: two sequences with the same
/// multiset of rows have the same duplicated clients.
proof fn lemma_multiset_duplicate_client(s1: Seq<ClientAccount>, s2: Seq<ClientAccount>, c: u16)
    requires
        s1.to_multiset() == s2.to_multiset(),
        duplicate_client_at(s1, c),
    ensures
        duplicate_client_at(s2, c),
{
    let (i, j) = choose|i: int, j: int|
        0 <= i < j < s1.len() && s1[i].client == c && s1[j].client == c;
    let v1 = s1[i];
    let v2 = s1[j];
    if v1 == v2 {
        lemma_count_two_of(s1, i, j);
        lemma_two_indexes_of(s2, v1);
    } else {
        assert(s1.contains(v1));
        assert(s1.contains(v2));
        assert(s2.to_multiset().count(v1) > 0);
        assert(s2.to_multiset().count(v2) > 0);
        assert(s2.contains(v1));
        assert(s2.contains(v2));
        let k1 = choose|k: int| 0 <= k < s2.len() && s2[k] == v1;
        let k2 = choose|k: int| 0 <= k < s2.len() && s2[k] == v2;
        if k1 < k2 {
            assert(0 <= k1 < k2 < s2.len() && s2[k1].client == c && s2[k2].client == c);
        } else {
            assert(0 <= k2 < k1 < s2.len() && s2[k2].client == c && s2[k1].client == c);
        }
    }
}

/// Concatenation takes one more list at the end in one piece.
proof fn lemma_concat_all_push(s: Seq<Seq<ClientAccount>>, x: Seq<ClientAccount>)
    ensures
        concat_all(s.push(x)) == concat_all(s) + x,
    decreases s.len(),
{
    if s.len() == 0 {
        assert(s.push(x)[0] == x);
        assert(s.push(x).drop_first() =~= Seq::<Seq<ClientAccount>>::empty());
        assert(concat_all(Seq::<Seq<ClientAccount>>::empty()) == Seq::<ClientAccount>::empty());
        assert(concat_all(s.push(x)) == x + Seq::<ClientAccount>::empty());
        assert(x + Seq::<ClientAccount>::empty() =~= x);
        assert(concat_all(s) + x =~= x);
    } else {
        lemma_concat_all_push(s.drop_first(), x);
        assert(s.push(x).drop_first() =~= s.drop_first().push(x));
        assert(s.push(x)[0] == s[0]);
        assert(concat_all(s.push(x)) == s[0] + (concat_all(s.drop_first()) + x));
        assert(s[0] + (concat_all(s.drop_first()) + x) =~= (s[0] + concat_all(s.drop_first()))
            + x);
    }
}

/// Merges the per-worker result lists into one report: every row exactly
/// once, in strictly ascending client order. Succeeds if and only if no
/// client id appears twice across the lists; otherwise names one that does.
pub fn merge_results(parts: Vec<Vec<ClientAccount>>) -> (r: Result<
    Vec<ClientAccount>,
    MergeError,
>)
    ensures
        match r {
            Ok(rows) => {
                &&& rows@.to_multiset() == all_rows(parts@).to_multiset()
                &&& strictly_sorted_by_client(rows@)
                &&& !has_duplicate_client(all_rows(parts@))
            },
            Err(e) => match e {
                MergeError::DuplicateClient(c) => duplicate_client_at(all_rows(parts@), c),
            },
        },
{
    let ghost all: Seq<ClientAccount> = all_rows(parts@);
    let ghost mv: Seq<Seq<ClientAccount>> = parts@.map_values(|v: Vec<ClientAccount>| v@);
    let mut rows: Vec<ClientAccount> = Vec::new();
    let mut pi: usize = 0;
    proof {
        assert(mv.take(0) =~= Seq::<Seq<ClientAccount>>::empty());
    }
    while pi < parts.len()
        invariant
            0 <= pi <= parts@.len(),
            mv == parts@.map_values(|v: Vec<ClientAccount>| v@),
            rows@ == concat_all(mv.take(pi as int)),
        decreases parts@.len() - pi,
    {
        let part = &parts[pi];
        proof {
            assert(part@ == mv[pi as int]);
        }
        let mut qi: usize = 0;
        while qi < part.len()
            invariant
                0 <= pi < parts@.len(),
                0 <= qi <= part@.len(),
                part@ == mv[pi as int],
                rows@ == concat_all(mv.take(pi as int)) + mv[pi as int].take(qi as int),
            decreases part@.len() - qi,
        {
            rows.push(part[qi]);
            proof {
                assert(mv[pi as int].take(qi as int + 1) =~= mv[pi as int].take(
                    qi as int,
                ).push(part@[qi as int]));
                assert(rows@ =~= concat_all(mv.take(pi as int)) + mv[pi as int].take(
                    qi as int + 1,
                ));
            }
            qi += 1;
        }
        proof {
            assert(mv[pi as int].take(part@.len() as int) =~= mv[pi as int]);
            lemma_concat_all_push(mv.take(pi as int), mv[pi as int]);
            assert(mv.take(pi as int + 1) =~= mv.take(pi as int).push(mv[pi as int]));
            assert(rows@ == concat_all(mv.take(pi as int + 1)));
        }
        pi += 1;
    }
    proof {
        assert(mv.take(parts@.len() as int) =~= mv);
        assert(rows@ == all);
    }
    let n = rows.len();
    let mut i: usize = 0;
    while i < n
        invariant
            n == rows@.len(),
            rows@ == all,
            all == all_rows(parts@),
            0 <= i <= n,
            forall|p: int, q: int|
                0 <= p < i && p < q < n ==> rows@[p].client != rows@[q].client,
        decreases n - i,
    {
        let mut j = i + 1;
        while j < n
            invariant
                n == rows@.len(),
                rows@ == all,
                all == all_rows(parts@),
                0 <= i < j <= n,
                forall|q: int| i < q < j ==> rows@[i as int].client != rows@[q].client,
        decreases n - j,
        {
            let ci = rows[i].client;
            let cj = rows[j].client;
            if ci == cj {
                proof {
                    assert(ci == rows@[i as int].client);
                    assert(cj == rows@[j as int].client);
                    assert(0 <= (i as int) && (i as int) < (j as int) && (j as int) < all.len());
                    assert(all[i as int].client == ci && all[j as int].client == ci);
                    assert(duplicate_client_at(all, ci));
                }
                return Err(MergeError::DuplicateClient(ci));
            }
            j += 1;
        }
        i += 1;
    }
    proof {
        assert forall|c: u16| !duplicate_client_at(all, c) by {
            if duplicate_client_at(all, c) {
                let (p, q) = choose|p: int, q: int|
                    0 <= p < q < all.len() && all[p].client == c && all[q].client == c;
                assert(rows@[p].client != rows@[q].client);
            }
        }
    }
    let mut k: usize = 1;
    while k < rows.len()
        invariant
            rows@.len() == all.len(),
            rows@.to_multiset() == all.to_multiset(),
            1 <= k,
            forall|p: int, q: int| 0 <= p < q < k ==> rows@[p].client <= rows@[q].client,
        decreases rows@.len() - k,
    {
        let mut j = k;
        while j > 0 && rows[j - 1].client > rows[j].client
            invariant
                rows@.len() == all.len(),
                rows@.to_multiset() == all.to_multiset(),
                0 <= j <= k < rows@.len(),
                forall|p: int, q: int|
                    0 <= p < q <= k && q != j ==> rows@[p].client <= rows@[q].client,
                forall|q: int| j < q <= k ==> rows@[j as int].client <= rows@[q].client,
            decreases j,
        {
            let ghost prior = rows@;
            let a = rows[j - 1];
            let b = rows[j];
            rows[j - 1] = b;
            rows[j] = a;
            proof {
                assert(rows@ == prior.update(j - 1, b).update(j as int, a));
                assert(prior.update(j - 1, b)[j as int] == b);
                assert(rows@.to_multiset() =~= prior.to_multiset());
            }
            j -= 1;
        }
        k += 1;
    }
    proof {
        assert forall|p: int, q: int| 0 <= p < q < rows@.len() implies rows@[p].client
            < rows@[q].client by {
            assert(rows@[p].client <= rows@[q].client);
            if rows@[p].client == rows@[q].client {
                assert(duplicate_client_at(rows@, rows@[p].client));
                lemma_multiset_duplicate_client(rows@, all, rows@[p].client);
            }
        }
    }
    Ok(rows)
}

} // verus!
