//! Character-level helpers: reading a string as characters, joining pieces
//! with a separator, and the lexicographic order of strings.
use vstd::prelude::*;

verus! {

/// Copies the characters of a string slice into a vector.
pub fn char_vec(s: &str) -> (v: Vec<char>)
    ensures
        v@ == s@,
{
    let mut v: Vec<char> = Vec::new();
    for c in it: s.chars()
        invariant
            v@ == it.seq().take(it.index() as int),
            it.seq() == s@,
    {
        v.push(c);
    }
    v
}

/// The pieces written one after another with `sep` between neighbours, as
/// `[&str]::join` writes them.
pub open spec fn join(parts: Seq<Seq<char>>, sep: Seq<char>) -> Seq<char>
    decreases parts.len(),
{
    if parts.len() == 0 {
        Seq::<char>::empty()
    } else if parts.len() == 1 {
        parts[0]
    } else {
        join(parts.drop_last(), sep) + sep + parts.last()
    }
}

/// Joining nothing gives the empty text, and joining one piece gives the
/// piece itself.
pub proof fn law_join_small(x: Seq<char>, sep: Seq<char>)
    ensures
        join(Seq::<Seq<char>>::empty(), sep) == Seq::<char>::empty(),
        join(seq![x], sep) == x,
{
}

/// Joining splits at any boundary between pieces: the pieces of `a` joined,
/// then the separator, then the pieces of `b` joined. With `law_join_small`
/// this says the result is every piece in order with exactly one separator
/// between neighbours.
pub proof fn law_join_concat(a: Seq<Seq<char>>, b: Seq<Seq<char>>, sep: Seq<char>)
    requires
        a.len() > 0,
        b.len() > 0,
    ensures
        join(a + b, sep) == join(a, sep) + sep + join(b, sep),
    decreases b.len(),
{
    if b.len() == 1 {
        assert((a + b).drop_last() =~= a);
        assert(join(b, sep) == b[0]);
    } else {
        law_join_concat(a, b.drop_last(), sep);
        assert((a + b).drop_last() =~= a + b.drop_last());
        assert((a + b).last() == b.last());
        assert(join(a, sep) + sep + join(b.drop_last(), sep) + sep + b.last() =~= join(a, sep) + sep
            + (join(b.drop_last(), sep) + sep + b.last()));
    }
}

/// The length of a join: the pieces' lengths plus one separator between
/// each pair of neighbours.
pub proof fn law_join_len(parts: Seq<Seq<char>>, sep: Seq<char>)
    requires
        parts.len() > 0,
    ensures
        join(parts, sep).len() == total_len(parts) + (parts.len() - 1) * sep.len(),
    decreases parts.len(),
{
    let n = parts.len() as int;
    let w = sep.len() as int;
    if n > 1 {
        law_join_len(parts.drop_last(), sep);
        assert(join(parts, sep) == join(parts.drop_last(), sep) + sep + parts.last());
        assert(total_len(parts) == total_len(parts.drop_last()) + parts.last().len());
        assert((n - 1) * w == (n - 2) * w + w) by (nonlinear_arith);
    } else {
        assert(total_len(parts.drop_last()) == 0);
        assert(join(parts, sep) == parts[0]);
    }
}

/// The summed lengths of the pieces.
pub open spec fn total_len(parts: Seq<Seq<char>>) -> int
    decreases parts.len(),
{
    if parts.len() == 0 {
        0
    } else {
        total_len(parts.drop_last()) + parts.last().len()
    }
}

/// The character sequences of a list of strings.
pub open spec fn string_views(parts: Seq<String>) -> Seq<Seq<char>> {
    parts.map_values(|p: String| p@)
}

/// Joins the strings with `sep` between neighbours.
pub fn join_strings(parts: &Vec<String>, sep: &str) -> (r: String)
    ensures
        r@ == join(string_views(parts@), sep@),
{
    let mut out = String::new();
    let mut i: usize = 0;
    while i < parts.len()
        invariant
            0 <= i <= parts.len(),
            out@ == join(string_views(parts@).take(i as int), sep@),
        decreases parts.len() - i,
    {
        let ghost views = string_views(parts@);
        proof {
            assert(views.take(i + 1).drop_last() =~= views.take(i as int));
            assert(views.take(i + 1).last() == parts@[i as int]@);
        }
        if i > 0 {
            out.append(sep);
        }
        out.append(parts[i].as_str());
        proof {
            if i == 0 {
                assert(out@ =~= views.take(1)[0]);
            }
        }
        i = i + 1;
    }
    assert(string_views(parts@).take(parts.len() as int) =~= string_views(parts@));
    out
}

/// `a` comes no later than `b` in lexicographic order by code point, the
/// order of `Ord` on `String` (byte order of UTF-8 agrees with code-point
/// order).
pub open spec fn chars_le(a: Seq<char>, b: Seq<char>) -> bool
    decreases a.len(),
{
    if a.len() == 0 {
        true
    } else if b.len() == 0 {
        false
    } else if a[0] != b[0] {
        a[0] < b[0]
    } else {
        chars_le(a.drop_first(), b.drop_first())
    }
}

/// The order is the lexicographic order of code points: `a` comes no later
/// than `b` exactly when `a` is a prefix of `b`, or at the first position
/// where they differ `a` holds the smaller character.
pub proof fn law_chars_le_lexicographic(a: Seq<char>, b: Seq<char>)
    ensures
        chars_le(a, b) <==> (a.len() <= b.len() && b.take(a.len() as int) == a) || exists|k: int|
            0 <= k < a.len() && k < b.len() && a.take(k) == b.take(k) && a[k] < b[k],
    decreases a.len(),
{
    if a.len() == 0 {
        assert(b.take(0) =~= a);
    } else if b.len() == 0 {
    } else if a[0] != b[0] {
        if a[0] < b[0] {
            assert(a.take(0) =~= b.take(0));
        } else {
            if a.len() <= b.len() {
                assert(b.take(a.len() as int)[0] == b[0]);
            }
            assert forall|k: int|
                0 <= k < a.len() && k < b.len() && a.take(k) == b.take(k) implies !(a[k] < b[k]) by {
                if k > 0 {
                    assert(a.take(k)[0] == b.take(k)[0]);
                }
            }
        }
    } else {
        let a1 = a.drop_first();
        let b1 = b.drop_first();
        law_chars_le_lexicographic(a1, b1);
        if a1.len() <= b1.len() && b1.take(a1.len() as int) == a1 {
            assert forall|k: int| 0 <= k < a.len() implies b.take(a.len() as int)[k] == a[k] by {
                if k > 0 {
                    assert(b1.take(a1.len() as int)[k - 1] == a1[k - 1]);
                }
            }
            assert(b.take(a.len() as int) =~= a);
        }
        if a.len() <= b.len() && b.take(a.len() as int) == a {
            assert(b1.take(a1.len() as int) =~= a1);
        }
        if exists|k: int|
            0 <= k < a1.len() && k < b1.len() && a1.take(k) == b1.take(k) && a1[k] < b1[k] {
            let k = choose|k: int|
                0 <= k < a1.len() && k < b1.len() && a1.take(k) == b1.take(k) && a1[k] < b1[k];
            assert(a.take(k + 1) =~= seq![a[0]] + a1.take(k));
            assert(b.take(k + 1) =~= seq![b[0]] + b1.take(k));
        }
        if exists|k: int|
            0 <= k < a.len() && k < b.len() && a.take(k) == b.take(k) && a[k] < b[k] {
            let k = choose|k: int|
                0 <= k < a.len() && k < b.len() && a.take(k) == b.take(k) && a[k] < b[k];
            assert(k > 0);
            assert(a1.take(k - 1) =~= a.take(k).drop_first());
            assert(b1.take(k - 1) =~= b.take(k).drop_first());
        }
    }
}

/// Any two strings are ordered one way or the other.
pub proof fn lemma_chars_le_total(a: Seq<char>, b: Seq<char>)
    ensures
        chars_le(a, b) || chars_le(b, a),
    decreases a.len(),
{
    if a.len() > 0 && b.len() > 0 && a[0] == b[0] {
        lemma_chars_le_total(a.drop_first(), b.drop_first());
    }
}

/// The order is transitive.
pub proof fn lemma_chars_le_transitive(a: Seq<char>, b: Seq<char>, c: Seq<char>)
    requires
        chars_le(a, b),
        chars_le(b, c),
    ensures
        chars_le(a, c),
    decreases a.len(),
{
    if a.len() > 0 && b.len() > 0 && c.len() > 0 && a[0] == b[0] && b[0] == c[0] {
        lemma_chars_le_transitive(a.drop_first(), b.drop_first(), c.drop_first());
    }
}

/// Strings ordered both ways are equal.
pub proof fn lemma_chars_le_antisymmetric(a: Seq<char>, b: Seq<char>)
    requires
        chars_le(a, b),
        chars_le(b, a),
    ensures
        a == b,
    decreases a.len(),
{
    if a.len() > 0 && b.len() > 0 {
        lemma_chars_le_antisymmetric(a.drop_first(), b.drop_first());
        assert(a =~= seq![a[0]] + a.drop_first());
        assert(b =~= seq![b[0]] + b.drop_first());
    }
}

/// Compares two character sequences: `chars_le(a, b)`.
pub fn chars_le_exec(a: &Vec<char>, b: &Vec<char>) -> (r: bool)
    ensures
        r == chars_le(a@, b@),
{
    let mut i: usize = 0;
    assert(a@.skip(0) =~= a@);
    assert(b@.skip(0) =~= b@);
    while i < a.len() && i < b.len()
        invariant
            0 <= i <= a.len(),
            i <= b.len(),
            a@.take(i as int) == b@.take(i as int),
            chars_le(a@, b@) == chars_le(a@.skip(i as int), b@.skip(i as int)),
        decreases a.len() - i,
    {
        let ghost sa = a@.skip(i as int);
        let ghost sb = b@.skip(i as int);
        assert(sa[0] == a@[i as int]);
        assert(sb[0] == b@[i as int]);
        if a[i] != b[i] {
            return a[i] < b[i];
        }
        assert(sa.drop_first() =~= a@.skip(i + 1));
        assert(sb.drop_first() =~= b@.skip(i + 1));
        assert(a@.take(i + 1) =~= a@.take(i as int).push(a@[i as int]));
        assert(b@.take(i + 1) =~= b@.take(i as int).push(b@[i as int]));
        i = i + 1;
    }
    assert(a@.skip(i as int).len() == 0 <==> i == a.len());
    i == a.len()
}

} // verus!
