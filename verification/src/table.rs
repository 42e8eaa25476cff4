//! The association table builder: sorts raw (name, code point) pairs in
//! byte-lexicographic order of the names and keeps, for every name, the pair
//! that occurs first in the input.

use vstd::prelude::*;
use vstd::utf8::{decode_utf8, encode_utf8, encode_utf8_decode_utf8};
use crate::order::{compare_bytes, lex_lt, lemma_lex_lt_transitive, KeyOrder};

verus! {

/// One entry of the searchable table: a symbolic character name and the code
/// point it stands for.
#[derive(Debug)]
pub struct Assoc {
    pub name: String,
    pub code: u32,
}

/// The sort key of an entry: the UTF-8 bytes of its name.
pub open spec fn key_of(a: Assoc) -> Seq<u8> {
    encode_utf8(a.name@)
}

/// The table is strictly sorted: names strictly ascend in byte-lexicographic
/// order, so every name occurs at most once.
pub open spec fn strictly_sorted(t: Seq<Assoc>) -> bool {
    forall|i: int, j: int| 0 <= i < j < t.len() ==> lex_lt(key_of(#[trigger] t[i]), key_of(#[trigger] t[j]))
}

/// The entry at position `i` of `input` is the first with its name.
pub open spec fn first_occurrence(input: Seq<Assoc>, i: int) -> bool {
    &&& 0 <= i < input.len()
    &&& forall|j: int| 0 <= j < i ==> (#[trigger] input[j]).name@ != input[i].name@
}

/// The table holds an entry with the given name and code point.
pub open spec fn table_has(t: Seq<Assoc>, name: Seq<char>, code: u32) -> bool {
    exists|k: int| 0 <= k < t.len() && (#[trigger] t[k]).name@ == name && t[k].code == code
}

/// Some entry of the table carries the given name.
pub open spec fn name_in(t: Seq<Assoc>, name: Seq<char>) -> bool {
    exists|k: int| 0 <= k < t.len() && (#[trigger] t[k]).name@ == name
}

/// What the builder owes: `t` is strictly sorted and holds exactly the first
/// occurrence of every name of `input`.
pub open spec fn is_built_table(input: Seq<Assoc>, t: Seq<Assoc>) -> bool {
    &&& strictly_sorted(t)
    &&& forall|i: int| #[trigger] first_occurrence(input, i) ==> table_has(t, input[i].name@, input[i].code)
    &&& forall|k: int| 0 <= k < t.len() ==> exists|i: int| first_occurrence(input, i)
            && input[i].name@ == (#[trigger] t[k]).name@ && input[i].code == t[k].code
}

/// Names with equal UTF-8 encodings are equal.
pub proof fn lemma_key_injective(n1: Seq<char>, n2: Seq<char>)
    requires
        encode_utf8(n1) == encode_utf8(n2),
    ensures
        n1 == n2,
{
    broadcast use encode_utf8_decode_utf8;

    assert(decode_utf8(encode_utf8(n1)) == n1);
    assert(decode_utf8(encode_utf8(n2)) == n2);
}

/// Builds the association table: the result is strictly sorted by name and
/// holds, for every name of the input, the code point of the name's first
/// occurrence. An empty input yields an empty table.
pub fn build_table(input: &Vec<Assoc>) -> (t: Vec<Assoc>)
    ensures
        is_built_table(input@, t@),
{
    let ghost inp = input@;
    let mut t: Vec<Assoc> = Vec::new();
    let mut i: usize = 0;
    proof {
        assert(inp.take(0) =~= Seq::<Assoc>::empty());
    }
    while i < input.len()
        invariant
            i <= inp.len(),
            inp == input@,
            is_built_table(inp.take(i as int), t@),
            forall|n: Seq<char>| name_in(t@, n) <==> name_in(inp.take(i as int), n),
        decreases inp.len() - i,
    {
        let a = &input[i];
        let ghost pre = t@;
        proof {
            assert(inp.take(i as int + 1).drop_last() =~= inp.take(i as int));
            assert(inp.take(i as int + 1).last() == inp[i as int]);
        }
        // Find where the name belongs in the sorted table, or an entry that
        // already carries it.
        let mut p: usize = 0;
        let mut dup = false;
        loop
            invariant
                p <= t.len(),
                t@ == pre,
                forall|q: int| 0 <= q < p ==> lex_lt(key_of(#[trigger] t@[q]), key_of(inp[i as int])),
                dup ==> p < t.len() && t@[p as int].name@ == inp[i as int].name@,
                inp == input@,
                i < inp.len(),
                a == &input[i as int],
            ensures
                t@ == pre,
                dup ==> p < t.len() && t@[p as int].name@ == inp[i as int].name@,
                !dup ==> forall|q: int| 0 <= q < p ==> lex_lt(key_of(#[trigger] t@[q]), key_of(inp[i as int])),
                !dup ==> (p == t.len() || lex_lt(key_of(inp[i as int]), key_of(t@[p as int]))),
            decreases t.len() - p,
        {
            if p == t.len() {
                break;
            }
            match compare_bytes(t[p].name.as_str().as_bytes(), a.name.as_str().as_bytes()) {
                KeyOrder::Less => {
                    p = p + 1;
                }
                KeyOrder::Equal => {
                    proof {
                        lemma_key_injective(t@[p as int].name@, inp[i as int].name@);
                    }
                    dup = true;
                    break;
                }
                KeyOrder::Greater => {
                    break;
                }
            }
        }
        if dup {
            proof {
                lemma_skip_duplicate(inp, i as int, t@, p as int);
            }
        } else {
            let entry = Assoc { name: a.name.clone(), code: a.code };
            proof {
                assert(!name_in(pre, inp[i as int].name@)) by {
                    if name_in(pre, inp[i as int].name@) {
                        let k = choose|k: int| 0 <= k < pre.len() && (#[trigger] pre[k]).name@
                            == inp[i as int].name@;
                        if k < p {
                            crate::order::lemma_lex_lt_irreflexive(key_of(pre[k]));
                        } else {
                            // the scan stopped strictly below the key at `p`
                            if k > p {
                                lemma_lex_lt_transitive(
                                    key_of(inp[i as int]),
                                    key_of(pre[p as int]),
                                    key_of(pre[k]),
                                );
                            }
                            crate::order::lemma_lex_lt_irreflexive(key_of(pre[k]));
                        }
                    }
                };
            }
                t.insert(p, entry);
            proof {
                assert(t@.len() == pre.len() + 1);
                assert(forall|q: int| 0 <= q < p ==> t@[q] == pre[q]);
                assert(forall|q: int| p < q < t@.len() ==> t@[q] == pre[q - 1]);
                assert(t@[p as int].name@ == inp[i as int].name@);
                lemma_insert_fresh(inp, i as int, pre, t@, p as int);
            }
        }
        i = i + 1;
    }
    proof {
        assert(inp.take(inp.len() as int) =~= inp);
    }
    t
}

/// The names and code points of a table, in table order.
pub open spec fn table_view(t: Seq<Assoc>) -> Seq<(Seq<char>, u32)> {
    t.map_values(|a: Assoc| (a.name@, a.code))
}

/// In a strictly sorted table every name occurs once.
pub proof fn lemma_sorted_names_unique(t: Seq<Assoc>, i: int, j: int)
    requires
        strictly_sorted(t),
        0 <= i < j < t.len(),
    ensures
        t[i].name@ != t[j].name@,
{
    if t[i].name@ == t[j].name@ {
        crate::order::lemma_lex_lt_irreflexive(key_of(t[i]));
    }
}

/// Two strictly sorted tables that hold the same associations are equal entry
/// by entry.
pub proof fn lemma_sorted_tables_equal(t1: Seq<Assoc>, t2: Seq<Assoc>)
    requires
        strictly_sorted(t1),
        strictly_sorted(t2),
        forall|n: Seq<char>, c: u32| table_has(t1, n, c) <==> table_has(t2, n, c),
    ensures
        table_view(t1) =~= table_view(t2),
    decreases t1.len(),
{
    if t1.len() == 0 {
        if t2.len() > 0 {
            assert(table_has(t2, t2[0].name@, t2[0].code));
            assert(table_has(t1, t2[0].name@, t2[0].code));
        }
    } else if t2.len() == 0 {
        assert(table_has(t1, t1[0].name@, t1[0].code));
        assert(table_has(t2, t1[0].name@, t1[0].code));
    } else {
        // the heads agree: each head's name appears in the other table, and
        // both tables ascend, so neither head can lie strictly below the other
        assert(table_has(t1, t1[0].name@, t1[0].code));
        assert(table_has(t2, t2[0].name@, t2[0].code));
        let k = choose|k: int| 0 <= k < t2.len() && (#[trigger] t2[k]).name@ == t1[0].name@
            && t2[k].code == t1[0].code;
        let k2 = choose|k2: int| 0 <= k2 < t1.len() && (#[trigger] t1[k2]).name@ == t2[0].name@
            && t1[k2].code == t2[0].code;
        assert(t1[0].name@ == t2[0].name@) by {
            if k > 0 && k2 > 0 {
                assert(lex_lt(key_of(t2[0]), key_of(t2[k])));
                assert(lex_lt(key_of(t1[0]), key_of(t1[k2])));
                lemma_lex_lt_transitive(key_of(t1[0]), key_of(t1[k2]), key_of(t2[k]));
                crate::order::lemma_lex_lt_asymmetric(key_of(t1[0]), key_of(t2[0]));
            }
        };
        assert(t1[0].code == t2[0].code) by {
            if k > 0 {
                lemma_sorted_names_unique(t2, 0, k);
            }
        };

        let r1 = t1.drop_first();
        let r2 = t2.drop_first();
        assert(strictly_sorted(r1)) by {
            assert(forall|i: int| 0 <= i < r1.len() ==> r1[i] == t1[i + 1]);
        };
        assert(strictly_sorted(r2)) by {
            assert(forall|i: int| 0 <= i < r2.len() ==> r2[i] == t2[i + 1]);
        };
        assert forall|n: Seq<char>, c: u32| table_has(r1, n, c) implies table_has(r2, n, c) by {
            lemma_tail_has(t1, t2, n, c);
        };
        assert forall|n: Seq<char>, c: u32| table_has(r2, n, c) implies table_has(r1, n, c) by {
            lemma_tail_has(t2, t1, n, c);
        };
        lemma_sorted_tables_equal(r1, r2);
        assert(table_view(t1) =~= seq![(t1[0].name@, t1[0].code)] + table_view(r1));
        assert(table_view(t2) =~= seq![(t2[0].name@, t2[0].code)] + table_view(r2));
    }
}

/// An association in the tail of `t1` sits in the tail of `t2` as well, when
/// the two sorted tables agree and their heads carry the same name.
proof fn lemma_tail_has(t1: Seq<Assoc>, t2: Seq<Assoc>, n: Seq<char>, c: u32)
    requires
        strictly_sorted(t1),
        strictly_sorted(t2),
        t1.len() > 0,
        t2.len() > 0,
        t1[0].name@ == t2[0].name@,
        forall|m: Seq<char>, d: u32| table_has(t1, m, d) <==> table_has(t2, m, d),
        table_has(t1.drop_first(), n, c),
    ensures
        table_has(t2.drop_first(), n, c),
{
    let r1 = t1.drop_first();
    let w = choose|w: int| 0 <= w < r1.len() && (#[trigger] r1[w]).name@ == n && r1[w].code == c;
    assert(t1[w + 1].name@ == n && t1[w + 1].code == c);
    assert(table_has(t1, n, c));
    let k = choose|k: int| 0 <= k < t2.len() && (#[trigger] t2[k]).name@ == n && t2[k].code == c;
    lemma_sorted_names_unique(t1, 0, w + 1);
    assert(k != 0);
    assert(t2.drop_first()[k - 1].name@ == n && t2.drop_first()[k - 1].code == c);
}

/// Law: the association table is determined by its input alone — two builds
/// from the same input agree name for name and code for code.
pub proof fn lemma_build_deterministic(input: Seq<Assoc>, t1: Seq<Assoc>, t2: Seq<Assoc>)
    requires
        is_built_table(input, t1),
        is_built_table(input, t2),
    ensures
        table_view(t1) =~= table_view(t2),
{
    assert forall|n: Seq<char>, c: u32| table_has(t1, n, c) implies table_has(t2, n, c) by {
        lemma_built_has(input, t1, t2, n, c);
    };
    assert forall|n: Seq<char>, c: u32| table_has(t2, n, c) implies table_has(t1, n, c) by {
        lemma_built_has(input, t2, t1, n, c);
    };
    lemma_sorted_tables_equal(t1, t2);
}

/// An association of one built table reaches any other table built from the
/// same input.
proof fn lemma_built_has(input: Seq<Assoc>, t1: Seq<Assoc>, t2: Seq<Assoc>, n: Seq<char>, c: u32)
    requires
        is_built_table(input, t1),
        is_built_table(input, t2),
        table_has(t1, n, c),
    ensures
        table_has(t2, n, c),
{
    let k = choose|k: int| 0 <= k < t1.len() && (#[trigger] t1[k]).name@ == n && t1[k].code == c;
    let i = choose|i: int| first_occurrence(input, i) && input[i].name@ == (t1[k]).name@
        && input[i].code == t1[k].code;
    assert(table_has(t2, input[i].name@, input[i].code));
}

/// Inserting the first occurrence of a fresh name at its sorted position
/// extends a built table of `input.take(i)` to one of `input.take(i + 1)`.
#[verifier::rlimit(50)]
proof fn lemma_insert_fresh(inp: Seq<Assoc>, i: int, pre: Seq<Assoc>, post: Seq<Assoc>, p: int)
    requires
        0 <= i < inp.len(),
        is_built_table(inp.take(i), pre),
        forall|n: Seq<char>| name_in(pre, n) <==> name_in(inp.take(i), n),
        !name_in(pre, inp[i].name@),
        0 <= p <= pre.len(),
        forall|q: int| 0 <= q < p ==> lex_lt(key_of(#[trigger] pre[q]), key_of(inp[i])),
        p == pre.len() || lex_lt(key_of(inp[i]), key_of(pre[p])),
        post.len() == pre.len() + 1,
        forall|q: int| 0 <= q < p ==> post[q] == pre[q],
        forall|q: int| p < q < post.len() ==> post[q] == pre[q - 1],
        post[p].name@ == inp[i].name@,
        post[p].code == inp[i].code,
    ensures
        is_built_table(inp.take(i + 1), post),
        forall|n: Seq<char>| name_in(post, n) <==> name_in(inp.take(i + 1), n),
{
    let prefix = inp.take(i);
    let now = inp.take(i + 1);
    assert(now.drop_last() =~= prefix);
    assert(forall|j: int| 0 <= j < now.len() ==> now[j] == inp[j]);

    // sortedness
    assert forall|x: int, y: int| 0 <= x < y < post.len() implies lex_lt(
        key_of(#[trigger] post[x]),
        key_of(#[trigger] post[y]),
    ) by {
        if y > p {
            // everything after the insertion point lies strictly above the new key
            assert(lex_lt(key_of(inp[i]), key_of(post[y]))) by {
                if y - 1 > p {
                    lemma_lex_lt_transitive(key_of(inp[i]), key_of(pre[p]), key_of(pre[y - 1]));
                }
            };
        }
        if x < p {
            assert(lex_lt(key_of(post[x]), key_of(inp[i])));
        }
        if x < p && y > p {
            lemma_lex_lt_transitive(key_of(post[x]), key_of(inp[i]), key_of(post[y]));
        }
    };

    // first occurrences reach the table
    assert forall|j: int| #[trigger] first_occurrence(now, j) implies table_has(
        post,
        now[j].name@,
        now[j].code,
    ) by {
        if j < i {
            assert(first_occurrence(prefix, j));
            assert(table_has(pre, prefix[j].name@, prefix[j].code));
            let k = choose|k: int| 0 <= k < pre.len() && (#[trigger] pre[k]).name@
                == prefix[j].name@ && pre[k].code == prefix[j].code;
            let k2 = if k < p { k } else { k + 1 };
            assert(post[k2].name@ == prefix[j].name@ && post[k2].code == prefix[j].code);
        } else {
            assert(post[p].name@ == now[j].name@ && post[p].code == now[j].code);
        }
    };

    // every table entry comes from a first occurrence
    assert forall|k: int| 0 <= k < post.len() implies exists|j: int| first_occurrence(now, j)
        && inp.take(i + 1)[j].name@ == (#[trigger] post[k]).name@ && now[j].code == post[k].code by {
        if k == p {
            assert(!name_in(prefix, inp[i].name@));
            assert(forall|j: int| 0 <= j < i ==> (#[trigger] inp.take(i)[j]).name@ != inp[i].name@);
            assert(forall|j: int| 0 <= j < i ==> (#[trigger] now[j]).name@ != now[i].name@);
            assert(first_occurrence(now, i));
            assert(now[i].name@ == post[k].name@ && now[i].code == post[k].code);
        } else {
            let k0 = if k < p { k } else { k - 1 };
            assert(post[k] == pre[k0]);
            let j = choose|j: int| first_occurrence(prefix, j) && prefix[j].name@
                == (#[trigger] pre[k0]).name@ && prefix[j].code == pre[k0].code;
            assert(first_occurrence(now, j));
        }
    };

    // names of the table are the names seen so far
    assert forall|n: Seq<char>| #[trigger] name_in(post, n) implies name_in(now, n) by {
        let k = choose|k: int| 0 <= k < post.len() && (#[trigger] post[k]).name@ == n;
        if k == p {
            assert(now[i].name@ == n);
        } else {
            let k0 = if k < p { k } else { k - 1 };
            assert(pre[k0].name@ == n);
            assert(name_in(pre, n));
            let m = choose|m: int| 0 <= m < prefix.len() && (#[trigger] prefix[m]).name@ == n;
            assert(now[m].name@ == n);
        }
    };
    assert forall|n: Seq<char>| #[trigger] name_in(now, n) implies name_in(post, n) by {
        let m = choose|m: int| 0 <= m < now.len() && (#[trigger] now[m]).name@ == n;
        if m < i {
            assert(prefix[m].name@ == n);
            assert(name_in(prefix, n));
            assert(name_in(pre, n));
            let k = choose|k: int| 0 <= k < pre.len() && (#[trigger] pre[k]).name@ == n;
            let k2 = if k < p { k } else { k + 1 };
            assert(post[k2] == pre[k]);
            assert(post[k2].name@ == n);
        } else {
            assert(post[p].name@ == n);
        }
    };
}

/// When the name of `input[i]` is already in the table, the table built for
/// `input.take(i)` is also built for `input.take(i + 1)`.
proof fn lemma_skip_duplicate(inp: Seq<Assoc>, i: int, t: Seq<Assoc>, p: int)
    requires
        0 <= i < inp.len(),
        is_built_table(inp.take(i), t),
        forall|n: Seq<char>| name_in(t, n) <==> name_in(inp.take(i), n),
        0 <= p < t.len(),
        t[p].name@ == inp[i].name@,
    ensures
        is_built_table(inp.take(i + 1), t),
        forall|n: Seq<char>| name_in(t, n) <==> name_in(inp.take(i + 1), n),
{
    let prefix = inp.take(i);
    let now = inp.take(i + 1);
    assert(now.drop_last() =~= prefix);
    assert(forall|j: int| 0 <= j < now.len() ==> now[j] == inp[j]);

    // the new entry is not a first occurrence
    assert(name_in(prefix, inp[i].name@));
    let w = choose|w: int| 0 <= w < prefix.len() && (#[trigger] prefix[w]).name@ == inp[i].name@;
    assert(!first_occurrence(now, i));

    assert forall|j: int| #[trigger] first_occurrence(now, j) implies table_has(
        t,
        now[j].name@,
        now[j].code,
    ) by {
        assert(j != i);
        assert(first_occurrence(prefix, j));
    };

    assert forall|k: int| 0 <= k < t.len() implies exists|j: int| first_occurrence(now, j)
        && now[j].name@ == (#[trigger] t[k]).name@ && now[j].code == t[k].code by {
        let j = choose|j: int| first_occurrence(prefix, j) && prefix[j].name@
            == (#[trigger] t[k]).name@ && prefix[j].code == t[k].code;
        assert(first_occurrence(now, j));
    };

    assert forall|n: Seq<char>| #[trigger] name_in(now, n) implies name_in(t, n) by {
        let m = choose|m: int| 0 <= m < now.len() && (#[trigger] now[m]).name@ == n;
        if m < i {
            assert(name_in(prefix, n));
        } else {
            assert(t[p].name@ == n);
        }
    };
    assert forall|n: Seq<char>| #[trigger] name_in(t, n) implies name_in(now, n) by {
        assert(name_in(prefix, n));
        let m = choose|m: int| 0 <= m < prefix.len() && (#[trigger] prefix[m]).name@ == n;
        assert(now[m].name@ == n);
    };
}

} // verus!
