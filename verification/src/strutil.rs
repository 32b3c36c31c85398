//! Verified text helpers: equality, substring search, and the
//! comma-separated encoding used for prerequisite lists.

use vstd::prelude::*;

verus! {

/// No character of `s` is a comma.
pub open spec fn comma_free(s: Seq<char>) -> bool {
    forall|i: int| 0 <= i < s.len() ==> s[i] != ','
}

/// The pieces of `s` between its commas, in order. Splitting always yields
/// at least one piece: an empty text is one empty piece, and every comma
/// starts a further piece.
pub open spec fn split_commas_seq(s: Seq<char>) -> Seq<Seq<char>>
    decreases s.len(),
{
    if s.len() == 0 {
        seq![Seq::<char>::empty()]
    } else if s[0] == ',' {
        seq![Seq::<char>::empty()] + split_commas_seq(s.drop_first())
    } else {
        let rest = split_commas_seq(s.drop_first());
        seq![seq![s[0]] + rest[0]] + rest.drop_first()
    }
}

/// The pieces of `parts` joined with a comma between neighbours.
pub open spec fn join_commas_seq(parts: Seq<Seq<char>>) -> Seq<char>
    decreases parts.len(),
{
    if parts.len() == 0 {
        Seq::<char>::empty()
    } else if parts.len() == 1 {
        parts[0]
    } else {
        parts[0] + seq![','] + join_commas_seq(parts.drop_first())
    }
}

/// `needle` occurs in `hay` as a contiguous run of characters.
pub open spec fn contains_seq(hay: Seq<char>, needle: Seq<char>) -> bool {
    exists|i: int|
        0 <= i && i + needle.len() <= hay.len() && #[trigger] hay.subrange(i, i + needle.len())
            == needle
}

/// A comma-free text splits into just itself.
pub proof fn lemma_split_comma_free(s: Seq<char>)
    requires
        comma_free(s),
    ensures
        split_commas_seq(s) == seq![s],
    decreases s.len(),
{
    if s.len() == 0 {
        assert(split_commas_seq(s) =~~= seq![s]);
    } else {
        assert(comma_free(s.drop_first()));
        lemma_split_comma_free(s.drop_first());
        assert(seq![s[0]] + s.drop_first() =~= s);
        assert(split_commas_seq(s) =~~= seq![s]);
    }
}

/// Splitting `a + "," + b` peels off the comma-free piece `a` and then
/// splits `b`.
pub proof fn lemma_split_append(a: Seq<char>, b: Seq<char>)
    requires
        comma_free(a),
    ensures
        split_commas_seq(a + seq![','] + b) == seq![a] + split_commas_seq(b),
    decreases a.len(),
{
    let s = a + seq![','] + b;
    if a.len() == 0 {
        assert(s[0] == ',');
        assert(s.drop_first() =~= b);
        assert(split_commas_seq(s) =~~= seq![a] + split_commas_seq(b));
    } else {
        assert(s[0] == a[0]);
        assert(s.drop_first() =~= a.drop_first() + seq![','] + b);
        assert(comma_free(a.drop_first()));
        lemma_split_append(a.drop_first(), b);
        let rest = split_commas_seq(s.drop_first());
        assert(rest[0] == a.drop_first());
        assert(seq![s[0]] + rest[0] =~= a);
        assert(rest.drop_first() =~~= split_commas_seq(b));
        assert(split_commas_seq(s) =~~= seq![a] + split_commas_seq(b));
    }
}

/// Joining one more piece on the right appends a comma and that piece.
pub proof fn lemma_join_push(parts: Seq<Seq<char>>, p: Seq<char>)
    ensures
        join_commas_seq(parts.push(p)) == if parts.len() == 0 {
            p
        } else {
            join_commas_seq(parts) + seq![','] + p
        },
    decreases parts.len(),
{
    let w = parts.push(p);
    if parts.len() == 0 {
        assert(w.len() == 1);
        assert(join_commas_seq(w) == w[0]);
        assert(w[0] == p);
    } else if parts.len() == 1 {
        assert(w.drop_first() =~~= seq![p]);
        assert(join_commas_seq(w) == w[0] + seq![','] + join_commas_seq(w.drop_first()));
        assert(w[0] == parts[0]);
        assert(join_commas_seq(parts) == parts[0]);
    } else {
        assert(w.drop_first() =~~= parts.drop_first().push(p));
        lemma_join_push(parts.drop_first(), p);
        assert(join_commas_seq(w) == w[0] + seq![','] + (join_commas_seq(parts.drop_first())
            + seq![','] + p));
        assert(w[0] + seq![','] + (join_commas_seq(parts.drop_first()) + seq![','] + p) =~= (
        parts[0] + seq![','] + join_commas_seq(parts.drop_first())) + seq![','] + p);
    }
}

/// Splitting undoes joining, for any non-empty list of comma-free pieces.
pub proof fn lemma_split_join(parts: Seq<Seq<char>>)
    requires
        parts.len() >= 1,
        forall|i: int| 0 <= i < parts.len() ==> comma_free(#[trigger] parts[i]),
    ensures
        split_commas_seq(join_commas_seq(parts)) == parts,
    decreases parts.len(),
{
    if parts.len() == 1 {
        lemma_split_comma_free(parts[0]);
        assert(seq![parts[0]] =~~= parts);
    } else {
        lemma_split_append(parts[0], join_commas_seq(parts.drop_first()));
        lemma_split_join(parts.drop_first());
        assert(seq![parts[0]] + parts.drop_first() =~~= parts);
    }
}

/// Character-for-character equality of two texts.
pub fn str_eq(a: &str, b: &str) -> (r: bool)
    ensures
        r == (a@ == b@),
{
    let n = a.unicode_len();
    if n != b.unicode_len() {
        return false;
    }
    let mut i: usize = 0;
    while i < n
        invariant
            i <= n,
            n == a@.len(),
            n == b@.len(),
            forall|k: int| 0 <= k < i ==> a@[k] == b@[k],
        decreases n - i,
    {
        if a.get_char(i) != b.get_char(i) {
            return false;
        }
        i += 1;
    }
    proof {
        assert(a@ =~= b@);
    }
    true
}

/// True when the characters of `hay` starting at `i` spell out `needle`.
fn matches_at(hay: &str, needle: &str, i: usize) -> (r: bool)
    requires
        i + needle@.len() <= hay@.len(),
    ensures
        r == (hay@.subrange(i as int, i + needle@.len()) == needle@),
{
    let n = hay.unicode_len();
    let m = needle.unicode_len();
    let ghost sub = hay@.subrange(i as int, i + needle@.len());
    let mut j: usize = 0;
    while j < m
        invariant
            j <= m,
            m == needle@.len(),
            n == hay@.len(),
            i + m <= n,
            sub == hay@.subrange(i as int, i + m),
            forall|k: int| 0 <= k < j ==> hay@[i + k] == needle@[k],
        decreases m - j,
    {
        if hay.get_char(i + j) != needle.get_char(j) {
            proof {
                assert(sub[j as int] == hay@[i + j]);
            }
            return false;
        }
        j += 1;
    }
    proof {
        assert(sub =~= needle@);
    }
    true
}

/// Literal, case-sensitive substring search.
pub fn contains_substring(hay: &str, needle: &str) -> (r: bool)
    ensures
        r == contains_seq(hay@, needle@),
{
    let n = hay.unicode_len();
    let m = needle.unicode_len();
    if m > n {
        return false;
    }
    if m == 0 {
        proof {
            assert(contains_seq(hay@, needle@)) by {
                assert(hay@.subrange(0, 0 + needle@.len() as int) =~= needle@);
            }
        }
        return true;
    }
    let mut i: usize = 0;
    while i <= n - m
        invariant
            0 < m <= n,
            n == hay@.len(),
            m == needle@.len(),
            i <= n - m + 1,
            forall|k: int| 0 <= k < i ==> #[trigger] hay@.subrange(k, k + m) != needle@,
        decreases n - i,
    {
        if matches_at(hay, needle, i) {
            return true;
        }
        i += 1;
    }
    false
}

/// Joins the parts with commas, as `join_commas_seq` describes.
pub fn join_commas(parts: &Vec<String>) -> (r: String)
    ensures
        r@ == join_commas_seq(parts.deep_view()),
{
    let ghost all = parts.deep_view();
    let mut r = String::new();
    let mut i: usize = 0;
    while i < parts.len()
        invariant
            i <= parts.len(),
            all == parts.deep_view(),
            all.len() == parts.len(),
            r@ == join_commas_seq(all.take(i as int)),
        decreases parts.len() - i,
    {
        if i > 0 {
            r.append(",");
        }
        r.append(parts[i].as_str());
        proof {
            reveal_strlit(",");
            assert(","@ =~= seq![',']);
            lemma_join_push(all.take(i as int), all[i as int]);
            assert(all.take(i as int).push(all[i as int]) =~~= all.take(i as int + 1));
        }
        i += 1;
    }
    proof {
        assert(all.take(parts.len() as int) =~~= all);
    }
    r
}

/// Splits on commas, as `split_commas_seq` describes.
pub fn split_commas(s: &str) -> (r: Vec<String>)
    ensures
        r.deep_view() == split_commas_seq(s@),
{
    let n = s.unicode_len();
    let mut r: Vec<String> = Vec::new();
    let mut start: usize = 0;
    let mut i: usize = 0;
    proof {
        assert(r.deep_view() =~~= Seq::<Seq<char>>::empty());
        assert(s@.skip(0) =~= s@);
        assert(r.deep_view() + split_commas_seq(s@) =~~= split_commas_seq(s@));
    }
    while i < n
        invariant
            start <= i,
            i <= n,
            n == s@.len(),
            forall|k: int| start <= k < i ==> s@[k] != ',',
            split_commas_seq(s@) == r.deep_view() + split_commas_seq(s@.skip(start as int)),
        decreases n - i,
    {
        if s.get_char(i) == ',' {
            let ghost old_dv = r.deep_view();
            let piece = s.substring_char(start, i).to_owned();
            r.push(piece);
            proof {
                assert(r.deep_view() =~~= old_dv.push(s@.subrange(start as int, i as int)));
                assert(s@.skip(start as int) =~= s@.subrange(start as int, i as int) + seq![
                    ','
                ] + s@.skip(i as int + 1));
                lemma_split_append(s@.subrange(start as int, i as int), s@.skip(i as int + 1));
                assert(split_commas_seq(s@) =~~= r.deep_view() + split_commas_seq(
                    s@.skip(i as int + 1),
                ));
            }
            start = i + 1;
        }
        i += 1;
    }
    let ghost old_dv = r.deep_view();
    let piece = s.substring_char(start, n).to_owned();
    r.push(piece);
    proof {
        let tail = s@.skip(start as int);
        assert(comma_free(tail));
        lemma_split_comma_free(tail);
        assert(s@.subrange(start as int, n as int) =~= tail);
        assert(r.deep_view() =~~= old_dv.push(tail));
        assert(r.deep_view() =~~= split_commas_seq(s@));
    }
    r
}

} // verus!
