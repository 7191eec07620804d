//! The bot owners, given as a comma-separated list of Discord user ids.
use vstd::prelude::*;

use crate::decimal::{parse_u64_chars, u64_of};

verus! {

/// The pieces of `s` between the separator characters, as `str::split` with a
/// one-character pattern yields them (always at least one piece).
pub open spec fn split_on(s: Seq<char>, sep: char) -> Seq<Seq<char>>
    decreases s.len(),
{
    if s.len() == 0 {
        seq![Seq::<char>::empty()]
    } else {
        let p = split_on(s.drop_last(), sep);
        if s.last() == sep {
            p.push(Seq::<char>::empty())
        } else {
            p.update(p.len() - 1, p.last().push(s.last()))
        }
    }
}

proof fn lemma_split_nonempty(s: Seq<char>, sep: char)
    ensures
        split_on(s, sep).len() > 0,
    decreases s.len(),
{
    if s.len() > 0 {
        lemma_split_nonempty(s.drop_last(), sep);
    }
}

/// Every piece of the list is a `u64` numeral.
pub open spec fn all_ids_parse(pieces: Seq<Seq<char>>) -> bool {
    forall|i: int| 0 <= i < pieces.len() ==> (#[trigger] u64_of(pieces[i])) is Some
}

/// `x` is the id that some piece of the list denotes.
pub open spec fn listed_id(pieces: Seq<Seq<char>>, x: u64) -> bool {
    exists|i: int| 0 <= i < pieces.len() && #[trigger] u64_of(pieces[i]) == Some(x)
}

/// Adds `x` to `ids` unless it is there already.
fn insert_distinct(ids: &mut Vec<u64>, x: u64)
    requires
        old(ids)@.no_duplicates(),
    ensures
        final(ids)@.no_duplicates(),
        forall|y: u64| final(ids)@.contains(y) <==> (old(ids)@.contains(y) || y == x),
{
    let mut i: usize = 0;
    while i < ids.len()
        invariant
            0 <= i <= ids.len(),
            ids@ == old(ids)@,
            old(ids)@.no_duplicates(),
            forall|j: int| 0 <= j < i ==> ids@[j] != x,
        decreases ids.len() - i,
    {
        if ids[i] == x {
            return;
        }
        i = i + 1;
    }
    ids.push(x);
    assert forall|y: u64| ids@.contains(y) <==> (old(ids)@.contains(y) || y == x) by {
        if old(ids)@.contains(y) {
            let j = choose|j: int| 0 <= j < old(ids)@.len() && old(ids)@[j] == y;
            assert(ids@[j] == y);
        }
        if y == x {
            assert(ids@[ids@.len() - 1] == x);
        }
        if ids@.contains(y) && y != x {
            let j = choose|j: int| 0 <= j < ids@.len() && ids@[j] == y;
            assert(old(ids)@[j] == y);
        }
    }
}

/// Reads the owner list: the ids of the pieces of `s` split at `,`, each
/// piece read as `u64::from_str` reads it, with every id kept once (the
/// owners form a set). `None` where a piece is not a `u64` numeral.
pub fn parse_owner_ids(s: &str) -> (r: Option<Vec<u64>>)
    ensures
        r is Some <==> all_ids_parse(split_on(s@, ',')),
        r matches Some(ids) ==> {
            &&& ids@.no_duplicates()
            &&& forall|x: u64| ids@.contains(x) <==> listed_id(split_on(s@, ','), x)
        },
{
    let ghost text = s@;
    let ghost pieces = split_on(text, ',');
    let mut ids: Vec<u64> = Vec::new();
    let mut piece: Vec<char> = Vec::new();
    let mut ok = true;
    proof {
        lemma_split_nonempty(text, ',');
    }
    for c in it: s.chars()
        invariant
            it.seq() == text,
            pieces == split_on(text, ','),
            ({
                let done = split_on(text.take(it.index() as int), ',');
                &&& done.len() > 0
                &&& piece@ == done.last()
                &&& ids@.no_duplicates()
                &&& ok == all_ids_parse(done.drop_last())
                &&& ok ==> forall|x: u64| ids@.contains(x) <==> listed_id(done.drop_last(), x)
            }),
    {
        let ghost k = it.index() as int;
        let ghost before = split_on(text.take(k), ',');
        let ghost after = split_on(text.take(k + 1), ',');
        proof {
            assert(text.take(k + 1).drop_last() =~= text.take(k));
            assert(text.take(k + 1).last() == c);
            lemma_split_nonempty(text.take(k), ',');
        }
        if c == ',' {
            assert(after == before.push(Seq::<char>::empty()));
            assert(after.drop_last() =~= before);
            let parsed = parse_u64_chars(&piece);
            match parsed {
                Some(x) => {
                    if ok {
                        insert_distinct(&mut ids, x);
                    }
                },
                None => {
                    ok = false;
                },
            }
            proof {
                let prev = before.drop_last();
                assert(before =~= prev.push(before.last()));
                assert forall|x: u64| ok implies (ids@.contains(x) <==> listed_id(before, x)) by {
                    if listed_id(before, x) {
                        let i = choose|i: int| 0 <= i < before.len() && #[trigger] u64_of(before[i]) == Some(x);
                        if i < before.len() - 1 {
                            assert(prev[i] == before[i]);
                            assert(listed_id(prev, x));
                        }
                    }
                    if ids@.contains(x) && x != parsed.unwrap() {
                        let i = choose|i: int| 0 <= i < prev.len() && #[trigger] u64_of(prev[i]) == Some(x);
                        assert(before[i] == prev[i]);
                    }
                    if x == parsed.unwrap() {
                        assert(u64_of(before[before.len() - 1]) == Some(x));
                    }
                }
                assert(ok == all_ids_parse(before)) by {
                    if all_ids_parse(before) {
                        assert forall|i: int| 0 <= i < prev.len() implies (#[trigger] u64_of(prev[i])) is Some by {
                            assert(before[i] == prev[i]);
                        }
                        assert(u64_of(before[before.len() - 1]) is Some);
                    }
                    if ok {
                        assert forall|i: int| 0 <= i < before.len() implies (#[trigger] u64_of(before[i])) is Some by {
                            if i < before.len() - 1 {
                                assert(before[i] == prev[i]);
                            }
                        }
                    }
                }
            }
            piece = Vec::new();
        } else {
            piece.push(c);
            proof {
                assert(after == before.update(before.len() - 1, before.last().push(c)));
                assert(after.drop_last() =~= before.drop_last());
            }
        }
    }
    assert(text.take(text.len() as int) =~= text);
    let ghost done = split_on(text, ',');
    let ghost prev = done.drop_last();
    proof {
        assert(done =~= prev.push(done.last()));
    }
    let parsed = parse_u64_chars(&piece);
    match parsed {
        Some(x) => {
            if ok {
                insert_distinct(&mut ids, x);
            }
        },
        None => {
            ok = false;
        },
    }
    proof {
        assert forall|x: u64| ok implies (ids@.contains(x) <==> listed_id(done, x)) by {
            if listed_id(done, x) {
                let i = choose|i: int| 0 <= i < done.len() && #[trigger] u64_of(done[i]) == Some(x);
                if i < done.len() - 1 {
                    assert(prev[i] == done[i]);
                    assert(listed_id(prev, x));
                }
            }
            if ids@.contains(x) && x != parsed.unwrap() {
                let i = choose|i: int| 0 <= i < prev.len() && #[trigger] u64_of(prev[i]) == Some(x);
                assert(done[i] == prev[i]);
            }
            if x == parsed.unwrap() {
                assert(u64_of(done[done.len() - 1]) == Some(x));
            }
        }
        assert(ok == all_ids_parse(done)) by {
            if all_ids_parse(done) {
                assert forall|i: int| 0 <= i < prev.len() implies (#[trigger] u64_of(prev[i])) is Some by {
                    assert(done[i] == prev[i]);
                }
                assert(u64_of(done[done.len() - 1]) is Some);
            }
            if ok {
                assert forall|i: int| 0 <= i < done.len() implies (#[trigger] u64_of(done[i])) is Some by {
                    if i < done.len() - 1 {
                        assert(done[i] == prev[i]);
                    }
                }
            }
        }
    }
    if ok {
        Some(ids)
    } else {
        None
    }
}

} // verus!
