//! Character-sequence helpers: first occurrence of a character, and
//! separator-splitting, with the algebra the record codec relies on.
use vstd::prelude::*;

verus! {

/// The index of the first occurrence of `c` in `s`, or -1 if there is none.
pub open spec fn find_char(s: Seq<char>, c: char) -> int
    decreases s.len(),
{
    if s.len() == 0 {
        -1
    } else if s[0] == c {
        0
    } else {
        let r = find_char(s.drop_first(), c);
        if r == -1 {
            -1
        } else {
            r + 1
        }
    }
}

/// `f` does not contain the character `c`.
pub open spec fn free_of(f: Seq<char>, c: char) -> bool {
    forall|i: int| 0 <= i < f.len() ==> f[i] != c
}

/// A field value safe for the record file: free of the separator and the
/// record terminator.
pub open spec fn field_ok(f: Seq<char>) -> bool {
    free_of(f, ',') && free_of(f, '\n')
}

/// `find_char` finds the first occurrence, and -1 exactly when there is none.
pub proof fn lemma_find_char(s: Seq<char>, c: char)
    ensures
        find_char(s, c) >= -1,
        find_char(s, c) == -1 <==> free_of(s, c),
        find_char(s, c) >= 0 ==> find_char(s, c) < s.len() && s[find_char(s, c)] == c && (forall|
            j: int,
        |
            0 <= j < find_char(s, c) ==> s[j] != c),
    decreases s.len(),
{
    if s.len() == 0 {
    } else if s[0] == c {
    } else {
        let t = s.drop_first();
        lemma_find_char(t, c);
        if find_char(t, c) == -1 {
            assert forall|i: int| 0 <= i < s.len() implies s[i] != c by {
                if i >= 1 {
                    assert(s[i] == t[i - 1]);
                }
            }
        } else {
            let r = find_char(t, c);
            assert(s[r + 1] == t[r]);
            assert forall|j: int| 0 <= j < r + 1 implies s[j] != c by {
                if j >= 1 {
                    assert(s[j] == t[j - 1]);
                }
            }
        }
    }
}

/// Split `s` at every occurrence of `sep`. The result always has one more
/// piece than `s` has separators; an empty `s` gives one empty piece.
pub open spec fn split_on(s: Seq<char>, sep: char) -> Seq<Seq<char>>
    decreases s.len(),
{
    if s.len() == 0 {
        seq![Seq::<char>::empty()]
    } else {
        let rest = split_on(s.drop_first(), sep);
        if s[0] == sep {
            seq![Seq::<char>::empty()] + rest
        } else {
            seq![seq![s[0]] + rest[0]] + rest.drop_first()
        }
    }
}

/// Splitting never yields an empty list of pieces.
pub proof fn lemma_split_len(s: Seq<char>, sep: char)
    ensures
        split_on(s, sep).len() >= 1,
    decreases s.len(),
{
    if s.len() > 0 {
        lemma_split_len(s.drop_first(), sep);
    }
}

/// A separator-free sequence is one single piece.
pub proof fn lemma_split_sep_free(f: Seq<char>, sep: char)
    requires
        free_of(f, sep),
    ensures
        split_on(f, sep) == seq![f],
    decreases f.len(),
{
    if f.len() == 0 {
        assert(split_on(f, sep) =~~= seq![f]);
    } else {
        let t = f.drop_first();
        assert(free_of(t, sep)) by {
            assert(forall|i: int| 0 <= i < t.len() ==> t[i] == f[i + 1]);
        }
        lemma_split_sep_free(t, sep);
        assert(split_on(f, sep) =~= seq![seq![f[0]] + t]);
        assert(seq![f[0]] + t =~= f);
        assert(split_on(f, sep) =~= seq![f]);
    }
}

/// Splitting a sequence that starts with a separator-free piece, then the
/// separator, then a tail: the piece comes off the front.
pub proof fn lemma_split_concat(f: Seq<char>, t: Seq<char>, sep: char)
    requires
        free_of(f, sep),
    ensures
        split_on(f + seq![sep] + t, sep) == seq![f] + split_on(t, sep),
    decreases f.len(),
{
    let s = f + seq![sep] + t;
    if f.len() == 0 {
        assert(s =~= seq![sep] + t);
        assert(s[0] == sep);
        assert(s.drop_first() =~= t);
        assert(split_on(s, sep) =~= seq![Seq::<char>::empty()] + split_on(t, sep));
        assert(seq![f] =~~= seq![Seq::<char>::empty()]);
    } else {
        let f1 = f.drop_first();
        assert(free_of(f1, sep)) by {
            assert(forall|i: int| 0 <= i < f1.len() ==> f1[i] == f[i + 1]);
        }
        lemma_split_concat(f1, t, sep);
        assert(s[0] == f[0]);
        assert(s[0] != sep);
        assert(s.drop_first() =~= f1 + seq![sep] + t);
        let rest = split_on(f1 + seq![sep] + t, sep);
        assert(rest == seq![f1] + split_on(t, sep));
        assert(rest[0] == f1);
        assert(rest.drop_first() =~= split_on(t, sep));
        assert(seq![s[0]] + rest[0] =~= f);
        assert(split_on(s, sep) =~= seq![f] + split_on(t, sep));
    }
}

/// Every piece of a split is free of the separator; and a character the
/// whole sequence is free of is absent from every piece.
pub proof fn lemma_split_pieces(s: Seq<char>, sep: char)
    ensures
        forall|i: int|
            0 <= i < split_on(s, sep).len() ==> free_of(#[trigger] split_on(s, sep)[i], sep),
        forall|c: char, i: int|
            free_of(s, c) && 0 <= i < split_on(s, sep).len() ==> #[trigger] free_of(
                split_on(s, sep)[i],
                c,
            ),
    decreases s.len(),
{
    if s.len() == 0 {
    } else {
        let t = s.drop_first();
        lemma_split_pieces(t, sep);
        assert(forall|i: int| 0 <= i < t.len() ==> t[i] == s[i + 1]);
        let rest = split_on(t, sep);
        lemma_split_len(t, sep);
        if s[0] == sep {
            assert forall|c: char, i: int|
                (free_of(s, c) || c == sep) && 0 <= i < split_on(s, sep).len() implies free_of(
                (split_on(s, sep))[i],
                c,
            ) by {
                if i >= 1 {
                    assert(split_on(s, sep)[i] == rest[i - 1]);
                    if c == sep {
                        assert(free_of(rest[i - 1], sep));
                    } else {
                        assert(free_of(t, c));
                    }
                }
            }
        } else {
            let head = seq![s[0]] + rest[0];
            assert forall|c: char, i: int|
                (free_of(s, c) || c == sep) && 0 <= i < split_on(s, sep).len() implies free_of(
                (split_on(s, sep))[i],
                c,
            ) by {
                if c != sep {
                    assert(free_of(t, c));
                }
                if i == 0 {
                    assert(split_on(s, sep)[0] == head);
                    assert(free_of(rest[0], c));
                    assert forall|j: int| 0 <= j < head.len() implies head[j] != c by {
                        if j == 0 {
                            assert(head[0] == s[0]);
                        } else {
                            assert(head[j] == rest[0][j - 1]);
                        }
                    }
                } else {
                    assert(split_on(s, sep)[i] == rest.drop_first()[i - 1]);
                    assert(rest.drop_first()[i - 1] == rest[i]);
                    assert(free_of(rest[i], c));
                }
            }
        }
    }
}

} // verus!
