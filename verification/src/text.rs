//! Splitting, searching and joining of character sequences.
//!
//! The request grammar is defined over `Seq<char>` by [`split_on`],
//! [`find_sub`] and [`join_with`]; the executable functions here compute
//! those specifications on `&str` values.

use vstd::prelude::*;

verus! {

// ---------------------------------------------------------------------------
// Specification
// ---------------------------------------------------------------------------
/// `sep` occurs in `s` starting at position `i`.
pub open spec fn occurs_at(s: Seq<char>, sep: Seq<char>, i: int) -> bool {
    0 <= i && i + sep.len() <= s.len() && s.subrange(i, i + sep.len() as int) == sep
}

/// The position of the leftmost occurrence of `sep` in `s`, if any.
pub open spec fn find_sub(s: Seq<char>, sep: Seq<char>) -> Option<int>
    decreases s.len(),
{
    if sep.len() == 0 {
        Some(0)
    } else if s.len() < sep.len() {
        None
    } else if s.subrange(0, sep.len() as int) == sep {
        Some(0)
    } else {
        match find_sub(s.drop_first(), sep) {
            Some(i) => Some(i + 1),
            None => None,
        }
    }
}

/// Splitting worker: `acc` is the part of the current piece read so far.
pub open spec fn split_acc(s: Seq<char>, sep: Seq<char>, acc: Seq<char>) -> Seq<Seq<char>>
    decreases s.len(),
{
    if sep.len() == 0 || s.len() < sep.len() {
        seq![acc + s]
    } else if s.subrange(0, sep.len() as int) == sep {
        seq![acc] + split_acc(s.skip(sep.len() as int), sep, Seq::empty())
    } else {
        split_acc(s.drop_first(), sep, acc.push(s[0]))
    }
}

/// The pieces of `s` between the non-overlapping, leftmost-first occurrences
/// of `sep`, as `str::split` yields them: splitting never yields an empty
/// sequence of pieces, and a separator at the very start or end contributes
/// an empty piece.
pub open spec fn split_on(s: Seq<char>, sep: Seq<char>) -> Seq<Seq<char>> {
    split_acc(s, sep, Seq::empty())
}

/// The pieces joined back together with `sep` between adjacent pieces.
pub open spec fn join_with(pieces: Seq<Seq<char>>, sep: Seq<char>) -> Seq<char>
    decreases pieces.len(),
{
    if pieces.len() == 0 {
        Seq::empty()
    } else if pieces.len() == 1 {
        pieces[0]
    } else {
        pieces[0] + sep + join_with(pieces.drop_first(), sep)
    }
}

// ---------------------------------------------------------------------------
// Properties of the specification
// ---------------------------------------------------------------------------
/// Occurrences in a suffix are occurrences in the whole, shifted by one.
pub proof fn lemma_occurs_drop_first(s: Seq<char>, sep: Seq<char>, i: int)
    requires
        s.len() > 0,
        0 <= i,
    ensures
        occurs_at(s.drop_first(), sep, i) == occurs_at(s, sep, i + 1),
{
    if i + 1 + sep.len() <= s.len() {
        assert(s.drop_first().subrange(i, i + sep.len() as int) =~= s.subrange(
            i + 1,
            i + 1 + sep.len() as int,
        ));
    }
}

/// For a one-character separator, an occurrence is just that character.
pub proof fn lemma_occurs_single(s: Seq<char>, c: char, i: int)
    ensures
        occurs_at(s, seq![c], i) == (0 <= i < s.len() && s[i] == c),
{
    if 0 <= i < s.len() {
        if s[i] == c {
            assert(s.subrange(i, i + 1) =~= seq![c]);
        } else {
            assert(s.subrange(i, i + 1)[0] == s[i]);
        }
    }
}

/// `find_sub` returns the leftmost occurrence, or reports that none exists.
pub proof fn lemma_find_sub(s: Seq<char>, sep: Seq<char>)
    requires
        sep.len() > 0,
    ensures
        match find_sub(s, sep) {
            Some(i) => occurs_at(s, sep, i) && (forall|j: int|
                0 <= j < i ==> !occurs_at(s, sep, j)),
            None => forall|i: int| !occurs_at(s, sep, i),
        },
    decreases s.len(),
{
    if s.len() < sep.len() {
        assert forall|i: int| !occurs_at(s, sep, i) by {}
    } else if s.subrange(0, sep.len() as int) == sep {
        assert(occurs_at(s, sep, 0));
    } else {
        lemma_find_sub(s.drop_first(), sep);
        assert(!occurs_at(s, sep, 0));
        assert forall|i: int| 0 <= i implies occurs_at(s.drop_first(), sep, i) == occurs_at(
            s,
            sep,
            i + 1,
        ) by {
            lemma_occurs_drop_first(s, sep, i);
        }
        match find_sub(s.drop_first(), sep) {
            Some(i) => {
                assert(occurs_at(s, sep, i + 1));
                assert forall|j: int| 0 <= j < i + 1 implies !occurs_at(s, sep, j) by {
                    if j > 0 {
                        assert(!occurs_at(s.drop_first(), sep, j - 1));
                    }
                }
            },
            None => {
                assert forall|i: int| !occurs_at(s, sep, i) by {
                    if i >= 1 {
                        assert(!occurs_at(s.drop_first(), sep, i - 1));
                    }
                }
            },
        }
    }
}

/// If `sep` occurs nowhere in `s`, splitting yields the single piece `s`.
proof fn lemma_split_acc_none(s: Seq<char>, sep: Seq<char>, acc: Seq<char>)
    requires
        sep.len() > 0,
        forall|i: int| !occurs_at(s, sep, i),
    ensures
        split_acc(s, sep, acc) == seq![acc + s],
    decreases s.len(),
{
    if s.len() < sep.len() {
    } else {
        assert(!occurs_at(s, sep, 0));
        assert(s.subrange(0, sep.len() as int) != sep);
        assert forall|i: int| !occurs_at(s.drop_first(), sep, i) by {
            if i >= 0 {
                lemma_occurs_drop_first(s, sep, i);
                assert(!occurs_at(s, sep, i + 1));
            }
        }
        lemma_split_acc_none(s.drop_first(), sep, acc.push(s[0]));
        assert(acc.push(s[0]) + s.drop_first() =~= acc + s);
    }
}

/// See [`lemma_split_acc_none`].
pub proof fn lemma_split_none(s: Seq<char>, sep: Seq<char>)
    requires
        sep.len() > 0,
        forall|i: int| !occurs_at(s, sep, i),
    ensures
        split_on(s, sep) == seq![s],
{
    lemma_split_acc_none(s, sep, Seq::empty());
    assert(Seq::empty() + s =~= s);
}

proof fn lemma_split_acc_prefix(a: Seq<char>, sep: Seq<char>, b: Seq<char>, acc: Seq<char>)
    requires
        sep.len() > 0,
        forall|i: int| 0 <= i < a.len() ==> !occurs_at(a + sep + b, sep, i),
    ensures
        split_acc(a + sep + b, sep, acc) == seq![acc + a] + split_acc(b, sep, Seq::empty()),
    decreases a.len(),
{
    let s = a + sep + b;
    if a.len() == 0 {
        assert(s.subrange(0, sep.len() as int) =~= sep);
        assert(s.skip(sep.len() as int) =~= b);
        assert(acc + a =~= acc);
    } else {
        assert(!occurs_at(s, sep, 0));
        assert(s.len() >= sep.len());
        assert(s.subrange(0, sep.len() as int) != sep);
        let a2 = a.drop_first();
        let s2 = a2 + sep + b;
        assert(s.drop_first() =~= s2);
        assert forall|i: int| 0 <= i < a2.len() implies !occurs_at(s2, sep, i) by {
            lemma_occurs_drop_first(s, sep, i);
            assert(!occurs_at(s, sep, i + 1));
        }
        lemma_split_acc_prefix(a2, sep, b, acc.push(s[0]));
        assert(acc.push(s[0]) + a2 =~= acc + a);
    }
}

/// Splitting off a leading piece: if the first occurrence of `sep` in
/// `a + sep + b` is the shown one, the pieces are `a` followed by the pieces
/// of `b`.
pub proof fn lemma_split_prefix(a: Seq<char>, sep: Seq<char>, b: Seq<char>)
    requires
        sep.len() > 0,
        forall|i: int| 0 <= i < a.len() ==> !occurs_at(a + sep + b, sep, i),
    ensures
        split_on(a + sep + b, sep) == seq![a] + split_on(b, sep),
{
    lemma_split_acc_prefix(a, sep, b, Seq::empty());
    assert(Seq::empty() + a =~= a);
}

/// Appending one more piece to a join.
pub proof fn lemma_join_push(pieces: Seq<Seq<char>>, sep: Seq<char>, x: Seq<char>)
    ensures
        join_with(pieces.push(x), sep) == if pieces.len() == 0 {
            x
        } else {
            join_with(pieces, sep) + sep + x
        },
    decreases pieces.len(),
{
    let p = pieces.push(x);
    if pieces.len() == 0 {
        assert(p.len() == 1);
        assert(p[0] == x);
    } else {
        assert(p.len() >= 2);
        assert(p[0] == pieces[0]);
        assert(p.drop_first() =~= pieces.drop_first().push(x));
        lemma_join_push(pieces.drop_first(), sep, x);
        if pieces.len() == 1 {
            assert(join_with(p.drop_first(), sep) == x);
        } else {
            assert(pieces[0] + sep + (join_with(pieces.drop_first(), sep) + sep + x) =~= (pieces[0]
                + sep + join_with(pieces.drop_first(), sep)) + sep + x);
        }
    }
}

// ---------------------------------------------------------------------------
// Executable functions
// ---------------------------------------------------------------------------
/// Whether `sep` occurs in `s` at character position `i`.
fn match_at(s: &str, sep: &str, i: usize, n: usize, m: usize) -> (r: bool)
    requires
        n == s@.len(),
        m == sep@.len(),
        i + m <= n,
    ensures
        r == occurs_at(s@, sep@, i as int),
{
    let mut j: usize = 0;
    while j < m
        invariant
            n == s@.len(),
            m == sep@.len(),
            i + m <= n,
            0 <= j <= m,
            forall|k: int| 0 <= k < j ==> s@[i + k] == sep@[k],
        decreases m - j,
    {
        if s.get_char(i + j) != sep.get_char(j) {
            assert(s@.subrange(i as int, i + m as int)[j as int] != sep@[j as int]);
            return false;
        }
        j = j + 1;
    }
    assert(s@.subrange(i as int, i + m as int) =~= sep@);
    true
}

/// The character position of the leftmost occurrence of `sep` in `s`.
pub fn find_first(s: &str, sep: &str) -> (r: Option<usize>)
    requires
        sep@.len() > 0,
    ensures
        match r {
            Some(i) => find_sub(s@, sep@) == Some(i as int),
            None => find_sub(s@, sep@) is None,
        },
{
    let n = s.unicode_len();
    let m = sep.unicode_len();
    proof {
        lemma_find_sub(s@, sep@);
    }
    if m > n {
        return None;
    }
    let mut i: usize = 0;
    while i <= n - m
        invariant
            n == s@.len(),
            m == sep@.len(),
            0 < m <= n,
            0 <= i <= n - m + 1,
            forall|j: int| 0 <= j < i ==> !occurs_at(s@, sep@, j),
        decreases n - i,
    {
        if match_at(s, sep, i, n, m) {
            proof {
                lemma_find_sub(s@, sep@);
                match find_sub(s@, sep@) {
                    Some(f) => {
                        assert(!(f < i) && !(i < f));
                    },
                    None => {
                        assert(occurs_at(s@, sep@, i as int));
                    },
                }
            }
            return Some(i);
        }
        i = i + 1;
    }
    proof {
        assert forall|j: int| !occurs_at(s@, sep@, j) by {
            if 0 <= j < s@.len() {
                if j + sep@.len() <= s@.len() {
                    assert(j < i);
                }
            }
        }
        lemma_find_sub(s@, sep@);
    }
    None
}

/// The substring of `s` from character position `from` to `to`, owned.
pub fn substring(s: &str, from: usize, to: usize) -> (r: String)
    requires
        from <= to <= s@.len(),
    ensures
        r@ == s@.subrange(from as int, to as int),
{
    String::from_str(s.substring_char(from, to))
}

/// The pieces of `s` between the occurrences of `sep`, per [`split_on`].
pub fn split_str(s: &str, sep: &str) -> (r: Vec<String>)
    requires
        sep@.len() > 0,
    ensures
        r.deep_view() == split_on(s@, sep@),
        r.len() >= 1,
{
    let n = s.unicode_len();
    let m = sep.unicode_len();
    let mut pieces: Vec<String> = Vec::new();
    let mut start: usize = 0;
    let mut i: usize = 0;
    proof {
        assert(s@.subrange(0, n as int) =~= s@);
        assert(s@.subrange(0, 0) =~= Seq::<char>::empty());
        assert(pieces.deep_view() + split_acc(s@, sep@, Seq::empty()) =~= split_acc(
            s@,
            sep@,
            Seq::empty(),
        ));
    }
    while m <= n && i <= n - m
        invariant
            n == s@.len(),
            m == sep@.len(),
            m > 0,
            0 <= start <= i <= n,
            split_on(s@, sep@) == pieces.deep_view() + split_acc(
                s@.subrange(i as int, n as int),
                sep@,
                s@.subrange(start as int, i as int),
            ),
        decreases n - i,
    {
        let ghost rest = s@.subrange(i as int, n as int);
        let ghost acc = s@.subrange(start as int, i as int);
        if match_at(s, sep, i, n, m) {
            proof {
                assert(rest.subrange(0, m as int) =~= s@.subrange(i as int, i + m as int));
                assert(rest.skip(m as int) =~= s@.subrange(i + m as int, n as int));
            }
            let piece = substring(s, start, i);
            pieces.push(piece);
            proof {
                assert(pieces.deep_view() =~= pieces.deep_view().subrange(
                    0,
                    pieces.deep_view().len() - 1,
                ).push(acc));
                assert(s@.subrange(i + m as int, i + m as int) =~= Seq::<char>::empty());
                assert(pieces.deep_view() + split_acc(
                    s@.subrange(i + m as int, n as int),
                    sep@,
                    Seq::empty(),
                ) =~= (pieces.deep_view().subrange(0, pieces.deep_view().len() - 1)) + (seq![acc]
                    + split_acc(s@.subrange(i + m as int, n as int), sep@, Seq::empty())));
            }
            start = i + m;
            i = i + m;
        } else {
            proof {
                assert(rest.len() >= m);
                if rest.subrange(0, m as int) == sep@ {
                    assert(rest.subrange(0, m as int) =~= s@.subrange(i as int, i + m as int));
                    assert(occurs_at(s@, sep@, i as int));
                }
                assert(rest.drop_first() =~= s@.subrange(i + 1, n as int));
                assert(rest[0] == s@[i as int]);
                assert(acc.push(s@[i as int]) =~= s@.subrange(start as int, i + 1));
            }
            i = i + 1;
        }
    }
    proof {
        let rest = s@.subrange(i as int, n as int);
        let acc = s@.subrange(start as int, i as int);
        assert(rest.len() < m || m == 0 || m > n);
        if m > n {
            assert(rest.len() == n - i <= n < m);
        }
        assert(acc + rest =~= s@.subrange(start as int, n as int));
    }
    let last = substring(s, start, n);
    pieces.push(last);
    proof {
        assert(pieces.deep_view() =~= pieces.deep_view().subrange(
            0,
            pieces.deep_view().len() - 1,
        ).push(s@.subrange(start as int, n as int)));
        assert(pieces.deep_view() =~= split_on(s@, sep@));
    }
    pieces
}

/// Whether two strings hold the same characters.
pub fn str_eq(a: &str, b: &str) -> (r: bool)
    ensures
        r == (a@ == b@),
{
    let n = a.unicode_len();
    if n != b.unicode_len() {
        return false;
    }
    let mut i: usize = 0;
    while i < n
        invariant
            n == a@.len() == b@.len(),
            0 <= i <= n,
            forall|k: int| 0 <= k < i ==> a@[k] == b@[k],
        decreases n - i,
    {
        if a.get_char(i) != b.get_char(i) {
            return false;
        }
        i = i + 1;
    }
    proof {
        assert(a@ =~= b@);
    }
    true
}

/// The pieces `lines[from..]` joined with `sep` between adjacent pieces.
pub fn join_from(lines: &Vec<String>, from: usize, sep: &str) -> (r: String)
    requires
        from <= lines@.len(),
    ensures
        r@ == join_with(lines.deep_view().skip(from as int), sep@),
{
    let mut out = String::new();
    let mut j: usize = from;
    while j < lines.len()
        invariant
            from <= j <= lines@.len(),
            out@ == join_with(lines.deep_view().subrange(from as int, j as int), sep@),
        decreases lines@.len() - j,
    {
        let ghost sofar = lines.deep_view().subrange(from as int, j as int);
        if j > from {
            out.append(sep);
        }
        out.append(lines[j].as_str());
        proof {
            lemma_join_push(sofar, sep@, lines.deep_view()[j as int]);
            assert(lines.deep_view().subrange(from as int, j + 1) =~= sofar.push(
                lines.deep_view()[j as int],
            ));
        }
        j = j + 1;
    }
    proof {
        assert(lines.deep_view().subrange(from as int, lines.deep_view().len() as int)
            =~= lines.deep_view().skip(from as int));
    }
    out
}

} // verus!
