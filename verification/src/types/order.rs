//! Contents in ascending order.

use crate::types::bytes;
use crate::types::cid;
use crate::types::cid::Cid;
use crate::types::table::KeyTable;
use vstd::prelude::*;

verus! {

/// Whether contents stand in ascending order, none of them twice.
pub open spec fn ascending(cids: Seq<Cid>) -> bool {
    forall|i: int, j: int|
        0 <= i < j < cids.len() ==> bytes::bytes_less((#[trigger] cids[i])@, (#[trigger] cids[j])@)
}

/// The contents of a list.
pub open spec fn cid_set(cids: Seq<Cid>) -> Set<Seq<u8>> {
    Set::new(|c: Seq<u8>| exists|i: int| 0 <= i < cids.len() && (#[trigger] cids[i])@ == c)
}

/// The contents of a set in ascending order.
pub open spec fn cid_list(cids: Set<Seq<u8>>) -> Seq<Cid> {
    choose|list: Seq<Cid>| ascending(list) && cid_set(list) == cids
}

/// There is one ascending list of a set of contents.
pub proof fn lemma_cid_list(list: Seq<Cid>, cids: Set<Seq<u8>>)
    requires
        ascending(list),
        cid_set(list) == cids,
    ensures
        cid_list(cids) == list,
{
    lemma_ascending_unique(cid_list(cids), list);
}

proof fn lemma_ascending_unique(a: Seq<Cid>, b: Seq<Cid>)
    requires
        ascending(a),
        ascending(b),
        cid_set(a) == cid_set(b),
    ensures
        a == b,
    decreases a.len(),
{
    if a.len() == 0 {
        if b.len() > 0 {
            assert(cid_set(b).contains(b[0]@));
            assert(cid_set(a).contains(b[0]@));
        }
        assert(a =~= b);
    } else {
        assert(cid_set(a).contains(a[0]@));
        assert(cid_set(b).contains(a[0]@));
        let k = choose|k: int| 0 <= k < b.len() && (#[trigger] b[k])@ == a[0]@;
        assert(cid_set(b).contains(b[0]@));
        assert(cid_set(a).contains(b[0]@));
        let m = choose|m: int| 0 <= m < a.len() && (#[trigger] a[m])@ == b[0]@;
        bytes::lemma_bytes_order(a[0]@, b[0]@);
        assert(k == 0);
        cid::lemma_cid_equal(a[0], b[0]);
        lemma_without_first(a);
        lemma_without_first(b);
        lemma_ascending_unique(a.drop_first(), b.drop_first());
        assert(a =~= seq![a[0]] + a.drop_first());
        assert(b =~= seq![b[0]] + b.drop_first());
    }
}

proof fn lemma_without_first(list: Seq<Cid>)
    requires
        ascending(list),
        list.len() > 0,
    ensures
        ascending(list.drop_first()),
        cid_set(list.drop_first()) == cid_set(list).remove(list[0]@),
{
    let rest = list.drop_first();
    assert forall|i: int, j: int| 0 <= i < j < rest.len() implies bytes::bytes_less(
        (#[trigger] rest[i])@,
        (#[trigger] rest[j])@,
    ) by {
        assert(rest[i] == list[i + 1] && rest[j] == list[j + 1]);
    }
    assert forall|c: Seq<u8>| cid_set(rest).contains(c) <==> cid_set(list).remove(
        list[0]@,
    ).contains(c) by {
        if cid_set(rest).contains(c) {
            let i = choose|i: int| 0 <= i < rest.len() && (#[trigger] rest[i])@ == c;
            assert(list[i + 1]@ == c);
            assert(bytes::bytes_less(list[0]@, list[i + 1]@));
            bytes::lemma_bytes_order(list[0]@, list[i + 1]@);
        }
        if cid_set(list).contains(c) && c != list[0]@ {
            let i = choose|i: int| 0 <= i < list.len() && (#[trigger] list[i])@ == c;
            assert(rest[i - 1]@ == c);
        }
    }
    assert(cid_set(rest) =~= cid_set(list).remove(list[0]@));
}

/// Puts a content into its place in an ascending list.
pub fn insert_sorted(cids: &mut Vec<Cid>, cid: Cid)
    requires
        ascending(old(cids)@),
        !cid_set(old(cids)@).contains(cid@),
    ensures
        ascending(final(cids)@),
        cid_set(final(cids)@) == cid_set(old(cids)@).insert(cid@),
        final(cids)@.len() == old(cids)@.len() + 1,
{
    let ghost before = cids@;
    let mut p: usize = 0;
    while p < cids.len() && bytes::key_less(&cids[p].bytes, &cid.bytes)
        invariant
            p <= cids@.len(),
            cids@ == before,
            forall|i: int| 0 <= i < p ==> bytes::bytes_less((#[trigger] cids@[i])@, cid@),
        decreases cids@.len() - p,
    {
        p = p + 1;
    }
    proof {
        assert forall|i: int| p <= i < before.len() implies bytes::bytes_less(
            cid@,
            (#[trigger] before[i])@,
        ) by {
            assert(before[p as int]@ != cid@);
            bytes::lemma_bytes_order(before[p as int]@, cid@);
            if p < i {
                bytes::lemma_bytes_transitive(cid@, before[p as int]@, before[i]@);
            }
        }
    }
    cids.insert(p, cid);
    proof {
        let after = cids@;
        assert forall|i: int, j: int| 0 <= i < j < after.len() implies bytes::bytes_less(
            (#[trigger] after[i])@,
            (#[trigger] after[j])@,
        ) by {
            if i < p && j > p {
                assert(after[i] == before[i] && after[j] == before[j - 1]);
            } else if i < p && j < p {
                assert(after[i] == before[i] && after[j] == before[j]);
            } else if i < p {
                assert(after[i] == before[i]);
            } else if i == p {
                assert(after[j] == before[j - 1]);
            } else {
                assert(after[i] == before[i - 1] && after[j] == before[j - 1]);
            }
        }
        assert forall|c: Seq<u8>| cid_set(after).contains(c) <==> cid_set(before).insert(
            cid@,
        ).contains(c) by {
            if cid_set(before).contains(c) {
                let i = choose|i: int| 0 <= i < before.len() && (#[trigger] before[i])@ == c;
                if i < p {
                    assert(after[i]@ == c);
                } else {
                    assert(after[i + 1]@ == c);
                }
            }
            assert(after[p as int]@ == cid@);
            if cid_set(after).contains(c) {
                let i = choose|i: int| 0 <= i < after.len() && (#[trigger] after[i])@ == c;
                if i < p {
                    assert(before[i]@ == c);
                } else if i > p {
                    assert(before[i - 1]@ == c);
                }
            }
        }
        assert(cid_set(after) =~= cid_set(before).insert(cid@));
    }
}

/// The keys of a table in ascending order.
pub fn sorted_keys<V>(table: &KeyTable<V>) -> (cids: Vec<Cid>)
    requires
        table.wf(),
    ensures
        cids@ == cid_list(table@.dom()),
        ascending(cids@),
        cid_set(cids@) == table@.dom(),
        cids@.len() == table@.dom().len(),
{
    proof {
        table.lemma_keys();
    }
    let len: usize = table.len();
    let mut cids: Vec<Cid> = Vec::new();
    let mut i: usize = 0;
    while i < len
        invariant
            i <= len,
            len == table.key_list().len(),
            table.wf(),
            table.key_list().no_duplicates(),
            ascending(cids@),
            cids@.len() == i,
            forall|c: Seq<u8>| #[trigger]
                cid_set(cids@).contains(c) <==> exists|j: int|
                    0 <= j < i && #[trigger] table.key_list()[j] == c,
        decreases len - i,
    {
        let cid = Cid::from_bytes(table.key_at(i));
        let ghost was = cids@;
        proof {
            assert(!cid_set(was).contains(cid@));
        }
        insert_sorted(&mut cids, cid);
        proof {
            assert forall|c: Seq<u8>| #[trigger] cid_set(cids@).contains(c) <==> exists|j: int|
                0 <= j < i + 1 && #[trigger] table.key_list()[j] == c by {
                if cid_set(was).contains(c) {
                    let j = choose|j: int| 0 <= j < i && #[trigger] table.key_list()[j] == c;
                    assert(table.key_list()[j] == c);
                }
                if c == cid@ {
                    assert(table.key_list()[i as int] == c);
                }
            }
        }
        i = i + 1;
    }
    proof {
        assert(cid_set(cids@) =~= table@.dom()) by {
            assert forall|c: Seq<u8>| cid_set(cids@).contains(c)
                <==> table@.dom().contains(c) by {
                if table@.dom().contains(c) {
                    assert(table.key_list().to_set().contains(c));
                    let j = choose|j: int| 0 <= j < table.key_list().len() && table.key_list()[j] == c;
                    assert(table.key_list()[j] == c);
                }
                if cid_set(cids@).contains(c) {
                    let j = choose|j: int| 0 <= j < i && #[trigger] table.key_list()[j] == c;
                    assert(table.key_list().to_set().contains(c));
                }
            }
        }
        lemma_cid_list(cids@, table@.dom());
    }
    cids
}

}
