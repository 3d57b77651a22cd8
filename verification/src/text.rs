//! Text as sequences of characters: splitting, joining, searching and
//! replacing, each with the meaning that `str`'s methods of the same name have.
use vstd::prelude::*;

verus! {

/// The pieces of `s` between the occurrences of `sep`, as `str::split` with a
/// `char` pattern yields them: one more piece than `s` has separators.
pub open spec fn split_on(s: Seq<char>, sep: char) -> Seq<Seq<char>>
    decreases s.len(),
{
    if s.len() == 0 {
        seq![Seq::<char>::empty()]
    } else {
        let p = split_on(s.drop_last(), sep);
        if s.last() == sep {
            p.push(Seq::<char>::empty())
        } else {
            p.update(p.len() - 1, p.last().push(s.last()))
        }
    }
}

/// The pieces joined again, with `sep` between each two of them.
pub open spec fn join_with(pieces: Seq<Seq<char>>, sep: char) -> Seq<char>
    decreases pieces.len(),
{
    if pieces.len() == 0 {
        Seq::<char>::empty()
    } else if pieces.len() == 1 {
        pieces[0]
    } else {
        join_with(pieces.drop_last(), sep).push(sep) + pieces.last()
    }
}

/// The index of the first occurrence of `c` in `s`, if there is one.
pub open spec fn find_char(s: Seq<char>, c: char) -> Option<int>
    decreases s.len(),
{
    if s.len() == 0 {
        None
    } else if s[0] == c {
        Some(0)
    } else {
        match find_char(s.drop_first(), c) {
            Some(i) => Some(i + 1),
            None => None,
        }
    }
}

/// What `splitn(2, c)` yields: the text before the first `c`, and the text
/// after it where there is one.
pub open spec fn split_once(s: Seq<char>, c: char) -> (Seq<char>, Option<Seq<char>>) {
    match find_char(s, c) {
        Some(i) => (s.take(i), Some(s.skip(i + 1))),
        None => (s, None),
    }
}

/// What `str::splitn(n, c)` yields: the pieces between the first `n - 1`
/// occurrences of `c`, the last piece keeping the rest of the text (no piece
/// at all where `n` is 0).
pub open spec fn splitn(s: Seq<char>, n: nat, c: char) -> Seq<Seq<char>>
    decreases n,
{
    if n == 0 {
        Seq::<Seq<char>>::empty()
    } else if n == 1 {
        seq![s]
    } else {
        match find_char(s, c) {
            Some(i) => seq![s.take(i)] + splitn(s.skip(i + 1), (n - 1) as nat, c),
            None => seq![s],
        }
    }
}

/// `s` with every occurrence of `pat`, taken from the left without overlap,
/// replaced by `rep`, as `str::replace` does for a non-empty pattern.
pub open spec fn replace_all(s: Seq<char>, pat: Seq<char>, rep: Seq<char>) -> Seq<char>
    decreases s.len(),
{
    if pat.len() == 0 || s.len() < pat.len() {
        s
    } else if s.take(pat.len() as int) == pat {
        rep + replace_all(s.skip(pat.len() as int), pat, rep)
    } else {
        seq![s[0]] + replace_all(s.skip(1), pat, rep)
    }
}

/// The views of a list of strings.
pub open spec fn string_views(v: Seq<String>) -> Seq<Seq<char>> {
    v.map_values(|x: String| x@)
}

/// The views of a list of character vectors.
pub open spec fn char_vec_views(v: Seq<Vec<char>>) -> Seq<Seq<char>> {
    v.map_values(|x: Vec<char>| x@)
}

pub proof fn lemma_split_on_nonempty(s: Seq<char>, sep: char)
    ensures
        split_on(s, sep).len() >= 1,
    decreases s.len(),
{
    if s.len() > 0 {
        lemma_split_on_nonempty(s.drop_last(), sep);
    }
}

/// Splitting at a separator and joining the pieces with it again gives back
/// the text: no character is lost or added by a split.
pub proof fn lemma_join_split(s: Seq<char>, sep: char)
    ensures
        join_with(split_on(s, sep), sep) == s,
    decreases s.len(),
{
    if s.len() > 0 {
        let init = s.drop_last();
        let p = split_on(init, sep);
        lemma_join_split(init, sep);
        lemma_split_on_nonempty(init, sep);
        if s.last() == sep {
            let q = p.push(Seq::<char>::empty());
            assert(q.drop_last() =~= p);
            assert(join_with(q, sep) =~= s);
        } else {
            let q = p.update(p.len() - 1, p.last().push(s.last()));
            if p.len() == 1 {
                assert(join_with(q, sep) =~= s);
            } else {
                assert(q.drop_last() =~= p.drop_last());
                assert(join_with(q, sep) =~= join_with(p, sep).push(s.last()));
                assert(join_with(q, sep) =~= s);
            }
        }
    }
}

/// No piece of a split holds the separator.
pub proof fn lemma_split_pieces_free_of_sep(s: Seq<char>, sep: char)
    ensures
        forall|i: int|
            0 <= i < split_on(s, sep).len() ==> !(#[trigger] split_on(s, sep)[i]).contains(sep),
    decreases s.len(),
{
    if s.len() > 0 {
        let init = s.drop_last();
        lemma_split_pieces_free_of_sep(init, sep);
        lemma_split_on_nonempty(init, sep);
        let p = split_on(init, sep);
        if s.last() != sep {
            let q = p.update(p.len() - 1, p.last().push(s.last()));
            assert forall|i: int| 0 <= i < q.len() implies !(#[trigger] q[i]).contains(sep) by {
                if i == p.len() - 1 {
                    if q[i].contains(sep) {
                        let j = choose|j: int| 0 <= j < q[i].len() && q[i][j] == sep;
                        if j < p.last().len() {
                            assert(p.last()[j] == sep);
                            assert(p[p.len() - 1].contains(sep));
                        }
                    }
                }
            }
        } else {
            let q = p.push(Seq::<char>::empty());
            assert forall|i: int| 0 <= i < q.len() implies !(#[trigger] q[i]).contains(sep) by {
                if i < p.len() {
                    assert(q[i] == p[i]);
                }
            }
        }
    }
}

/// A text without the separator is a single piece.
pub proof fn lemma_split_free(s: Seq<char>, sep: char)
    requires
        !s.contains(sep),
    ensures
        split_on(s, sep) == seq![s],
    decreases s.len(),
{
    if s.len() > 0 {
        let init = s.drop_last();
        assert(!init.contains(sep)) by {
            if init.contains(sep) {
                let j = choose|j: int| 0 <= j < init.len() && init[j] == sep;
                assert(s[j] == sep);
            }
        }
        lemma_split_free(init, sep);
        assert(s.last() != sep) by {
            assert(s[s.len() - 1] == s.last());
        }
        assert(init.push(s.last()) =~= s);
        assert(split_on(s, sep) =~= seq![s]);
    } else {
        assert(s =~= Seq::<char>::empty());
        assert(split_on(s, sep) =~= seq![s]);
    }
}

/// Splitting `x`, a separator, and a text `y` without separators gives the
/// pieces of `x` and then `y`.
pub proof fn lemma_split_append(x: Seq<char>, y: Seq<char>, sep: char)
    requires
        !y.contains(sep),
    ensures
        split_on(x.push(sep) + y, sep) == split_on(x, sep).push(y),
    decreases y.len(),
{
    if y.len() == 0 {
        assert(x.push(sep) + y =~= x.push(sep));
        assert(x.push(sep).drop_last() =~= x);
        assert(y =~= Seq::<char>::empty());
        assert(split_on(x.push(sep), sep) == split_on(x, sep).push(Seq::<char>::empty()));
    } else {
        let init = y.drop_last();
        assert(!init.contains(sep)) by {
            if init.contains(sep) {
                let j = choose|j: int| 0 <= j < init.len() && init[j] == sep;
                assert(y[j] == sep);
            }
        }
        lemma_split_append(x, init, sep);
        let whole = x.push(sep) + y;
        assert(whole.drop_last() =~= x.push(sep) + init);
        assert(whole.last() == y.last());
        assert(y.last() != sep) by {
            assert(y[y.len() - 1] == y.last());
        }
        assert(init.push(y.last()) =~= y);
        assert(split_on(whole, sep) =~= split_on(x, sep).push(y));
    }
}

/// Splitting two texts joined by a separator gives the pieces of the first
/// and then those of the second.
pub proof fn lemma_split_concat(x: Seq<char>, y: Seq<char>, sep: char)
    ensures
        split_on(x.push(sep) + y, sep) == split_on(x, sep) + split_on(y, sep),
    decreases y.len(),
{
    let px = split_on(x, sep);
    if y.len() == 0 {
        assert(x.push(sep) + y =~= x.push(sep));
        assert(x.push(sep).drop_last() =~= x);
        assert(y =~= Seq::<char>::empty());
        assert(split_on(y, sep) =~= seq![Seq::<char>::empty()]);
        assert(px.push(Seq::<char>::empty()) =~= px + seq![Seq::<char>::empty()]);
    } else {
        let init = y.drop_last();
        lemma_split_concat(x, init, sep);
        lemma_split_on_nonempty(init, sep);
        let whole = x.push(sep) + y;
        assert(whole.drop_last() =~= x.push(sep) + init);
        assert(whole.last() == y.last());
        let pi = split_on(init, sep);
        if y.last() == sep {
            assert((px + pi).push(Seq::<char>::empty()) =~= px + pi.push(Seq::<char>::empty()));
        } else {
            let q = px + pi;
            assert(q.update(q.len() - 1, q.last().push(y.last())) =~= px + pi.update(
                pi.len() - 1,
                pi.last().push(y.last()),
            ));
        }
    }
}

/// Taking out every `c` leaves no `c`, so taking them out again changes
/// nothing.
pub proof fn lemma_remove_char_idempotent(s: Seq<char>, c: char)
    ensures
        replace_all(replace_all(s, seq![c], Seq::<char>::empty()), seq![c], Seq::<char>::empty())
            == replace_all(s, seq![c], Seq::<char>::empty()),
    decreases s.len(),
{
    let e = Seq::<char>::empty();
    let p = seq![c];
    if s.len() >= 1 {
        lemma_remove_char_idempotent(s.skip(1), c);
        let rest = replace_all(s.skip(1), p, e);
        if s.take(1) == p {
            assert(replace_all(s, p, e) =~= rest);
        } else {
            assert(replace_all(s, p, e) =~= seq![s[0]] + rest);
            let t = seq![s[0]] + rest;
            assert(t.take(1) =~= seq![s[0]]);
            assert(seq![s[0]] != p) by {
                assert(s.take(1) =~= seq![s[0]]);
            }
            assert(t.skip(1) =~= rest);
            assert(replace_all(t, p, e) =~= seq![s[0]] + replace_all(rest, p, e));
        }
    }
}

/// Joining a first piece to a non-empty list of pieces.
pub proof fn lemma_join_cons(h: Seq<char>, rest: Seq<Seq<char>>, sep: char)
    requires
        rest.len() >= 1,
    ensures
        join_with(seq![h] + rest, sep) == h.push(sep) + join_with(rest, sep),
    decreases rest.len(),
{
    let all = seq![h] + rest;
    if rest.len() == 1 {
        assert(all.drop_last() =~= seq![h]);
        assert(all.last() == rest[0]);
        assert(join_with(seq![h], sep) == h);
        assert(join_with(rest, sep) == rest[0]);
        assert(join_with(all, sep) =~= h.push(sep) + join_with(rest, sep));
    } else {
        lemma_join_cons(h, rest.drop_last(), sep);
        assert(all.drop_last() =~= seq![h] + rest.drop_last());
        assert(all.last() == rest.last());
        assert(join_with(all, sep) =~= h.push(sep) + join_with(rest, sep));
    }
}

/// The pieces of `splitn`: at most `n` of them, at least one where `n` is
/// not 0, none but the last holding `c`, and joined with `c` they give the
/// text back.
pub proof fn lemma_splitn(s: Seq<char>, n: nat, c: char)
    ensures
        splitn(s, n, c).len() <= n,
        n >= 1 ==> splitn(s, n, c).len() >= 1,
        forall|j: int|
            0 <= j < splitn(s, n, c).len() - 1 ==> !(#[trigger] splitn(s, n, c)[j]).contains(c),
        n >= 1 ==> join_with(splitn(s, n, c), c) == s,
        1 <= splitn(s, n, c).len() < n ==> !splitn(s, n, c).last().contains(c),
    decreases n,
{
    if n >= 2 {
        lemma_find_char(s, c);
        match find_char(s, c) {
            Some(i) => {
                let t = s.skip(i + 1);
                lemma_splitn(t, (n - 1) as nat, c);
                let rest = splitn(t, (n - 1) as nat, c);
                let all = seq![s.take(i)] + rest;
                assert(!s.take(i).contains(c)) by {
                    if s.take(i).contains(c) {
                        let j = choose|j: int| 0 <= j < s.take(i).len() && s.take(i)[j] == c;
                        assert(s[j] == c);
                    }
                }
                assert forall|j: int| 0 <= j < all.len() - 1 implies !(#[trigger] all[j]).contains(
                    c,
                ) by {
                    if j > 0 {
                        assert(all[j] == rest[j - 1]);
                    }
                }
                lemma_join_cons(s.take(i), rest, c);
                assert(s.take(i).push(c) + t =~= s);
                assert(all.last() == rest.last());
            },
            None => {
                assert(!s.contains(c)) by {
                    if s.contains(c) {
                        let j = choose|j: int| 0 <= j < s.len() && s[j] == c;
                        assert(s[j] == c);
                    }
                }
                assert(seq![s].last() == s);
            },
        }
    }
}

/// What `splitn(2, c)` yields: for a text `h`, `c`, `t` where `h` holds no
/// `c`, the pieces `h` and `t`; for a text without `c`, the text alone.
pub proof fn lemma_split_once(h: Seq<char>, t: Seq<char>, c: char)
    ensures
        !h.contains(c) ==> split_once(h.push(c) + t, c) == (h, Some(t)),
        !h.contains(c) ==> split_once(h, c) == (h, None::<Seq<char>>),
{
    if !h.contains(c) {
        let s = h.push(c) + t;
        let k = h.len() as int;
        assert(s[k] == c);
        lemma_find_char(s, c);
        match find_char(s, c) {
            Some(i) => {
                if i < k {
                    assert(s[i] == h[i]);
                    assert(h.contains(c));
                }
                assert(i == k);
                assert(s.take(k) =~= h);
                assert(s.skip(k + 1) =~= t);
            },
            None => {
                assert(false);
            },
        }
        lemma_find_char(h, c);
        if find_char(h, c) is Some {
            let i = find_char(h, c)->0;
            assert(h[i] == c);
        }
    }
}

/// Replacing a pattern that does not occur leaves the text as it is.
pub proof fn lemma_replace_absent(s: Seq<char>, pat: Seq<char>, rep: Seq<char>)
    requires
        pat.len() > 0,
        forall|i: int| 0 <= i && i + pat.len() <= s.len() ==> #[trigger] s.subrange(i, i + pat.len()) != pat,
    ensures
        replace_all(s, pat, rep) == s,
    decreases s.len(),
{
    if s.len() >= pat.len() {
        assert(s.take(pat.len() as int) =~= s.subrange(0, pat.len() as int));
        assert(s.subrange(0int, 0int + pat.len()) != pat);
        assert(s.take(pat.len() as int) != pat);
        let t = s.skip(1);
        assert forall|i: int| 0 <= i && i + pat.len() <= t.len() implies #[trigger] t.subrange(
            i,
            i + pat.len(),
        ) != pat by {
            assert(t.subrange(i, i + pat.len()) =~= s.subrange(i + 1, i + 1 + pat.len()));
        }
        lemma_replace_absent(t, pat, rep);
        assert(seq![s[0]] + t =~= s);
    }
}

/// Replacing a pattern at the start of a text puts the replacement there.
pub proof fn lemma_replace_prefix(pat: Seq<char>, t: Seq<char>, rep: Seq<char>)
    requires
        pat.len() > 0,
    ensures
        replace_all(pat + t, pat, rep) == rep + replace_all(t, pat, rep),
{
    let s = pat + t;
    assert(s.take(pat.len() as int) =~= pat);
    assert(s.skip(pat.len() as int) =~= t);
}

/// `find_char` gives the first index at which `c` stands.
pub proof fn lemma_find_char(s: Seq<char>, c: char)
    ensures
        match find_char(s, c) {
            Some(i) => 0 <= i < s.len() && s[i] == c && forall|j: int| 0 <= j < i ==> s[j] != c,
            None => forall|j: int| 0 <= j < s.len() ==> s[j] != c,
        },
    decreases s.len(),
{
    if s.len() > 0 && s[0] != c {
        lemma_find_char(s.drop_first(), c);
        match find_char(s.drop_first(), c) {
            Some(i) => {
                assert forall|j: int| 0 <= j < i + 1 implies s[j] != c by {
                    if j > 0 {
                        assert(s[j] == s.drop_first()[j - 1]);
                    }
                }
            },
            None => {
                assert forall|j: int| 0 <= j < s.len() implies s[j] != c by {
                    if j > 0 {
                        assert(s[j] == s.drop_first()[j - 1]);
                    }
                }
            },
        }
    }
}

/// Appends `c` to `s` through std's `String::push`, which the documentation
/// describes as appending the given char to the end of the string.
#[verifier::external_body]
fn push_char(s: &mut String, c: char)
    ensures
        final(s)@ == old(s)@.push(c),
{
    s.push(c);
}

/// The characters of `s`, in order.
pub fn chars_of(s: &str) -> (r: Vec<char>)
    ensures
        r@ == s@,
{
    let mut r: Vec<char> = Vec::new();
    for c in it: s.chars()
        invariant
            r@ == it.seq().take(it.index() as int),
    {
        r.push(c);
    }
    r
}

/// A string made of the given characters.
pub fn string_of(v: &Vec<char>) -> (r: String)
    ensures
        r@ == v@,
{
    let mut r = String::new();
    let mut i: usize = 0;
    while i < v.len()
        invariant
            i <= v.len(),
            r@ == v@.take(i as int),
        decreases v.len() - i,
    {
        push_char(&mut r, v[i]);
        i = i + 1;
        assert(r@ =~= v@.take(i as int));
    }
    assert(v@.take(v.len() as int) =~= v@);
    r
}

/// Whether two character sequences are equal.
pub fn chars_eq(a: &Vec<char>, b: &Vec<char>) -> (r: bool)
    ensures
        r == (a@ == b@),
{
    if a.len() != b.len() {
        return false;
    }
    let mut i: usize = 0;
    while i < a.len()
        invariant
            i <= a.len(),
            a.len() == b.len(),
            forall|j: int| 0 <= j < i ==> a@[j] == b@[j],
        decreases a.len() - i,
    {
        if a[i] != b[i] {
            return false;
        }
        i = i + 1;
    }
    assert(a@ =~= b@);
    true
}

/// Whether `c` occurs in `s`.
pub fn contains_char(s: &Vec<char>, c: char) -> (r: bool)
    ensures
        r == s@.contains(c),
{
    let mut i: usize = 0;
    while i < s.len()
        invariant
            i <= s.len(),
            forall|j: int| 0 <= j < i ==> s@[j] != c,
        decreases s.len() - i,
    {
        if s[i] == c {
            assert(s@[i as int] == c);
            return true;
        }
        i = i + 1;
    }
    false
}

/// The characters of `s` from index `from` to index `to`.
pub fn sub_chars(s: &Vec<char>, from: usize, to: usize) -> (r: Vec<char>)
    requires
        from <= to <= s.len(),
    ensures
        r@ == s@.subrange(from as int, to as int),
{
    let mut r: Vec<char> = Vec::new();
    let mut i: usize = from;
    while i < to
        invariant
            from <= i <= to <= s.len(),
            r@ == s@.subrange(from as int, i as int),
        decreases to - i,
    {
        r.push(s[i]);
        i = i + 1;
        assert(r@ =~= s@.subrange(from as int, i as int));
    }
    r
}

/// The index of the first `c` in `s`, if there is one.
pub fn find_char_index(s: &Vec<char>, c: char) -> (r: Option<usize>)
    ensures
        match r {
            Some(i) => i < s@.len() && find_char(s@, c) == Some(i as int),
            None => find_char(s@, c) is None,
        },
{
    proof {
        lemma_find_char(s@, c);
    }
    let mut i: usize = 0;
    while i < s.len()
        invariant
            i <= s.len(),
            forall|j: int| 0 <= j < i ==> s@[j] != c,
            match find_char(s@, c) {
                Some(k) => 0 <= k < s@.len() && s@[k] == c && forall|j: int|
                    0 <= j < k ==> s@[j] != c,
                None => forall|j: int| 0 <= j < s@.len() ==> s@[j] != c,
            },
        decreases s.len() - i,
    {
        if s[i] == c {
            return Some(i);
        }
        i = i + 1;
    }
    None
}

/// What `splitn(2, c)` yields, as owned vectors.
pub fn split_once_chars(s: &Vec<char>, c: char) -> (r: (Vec<char>, Option<Vec<char>>))
    ensures
        r.0@ == split_once(s@, c).0,
        match r.1 {
            Some(t) => split_once(s@, c).1 == Some(t@),
            None => split_once(s@, c).1 is None,
        },
{
    match find_char_index(s, c) {
        Some(i) => {
            proof {
                lemma_find_char(s@, c);
            }
            let head = sub_chars(s, 0, i);
            let tail = sub_chars(s, i + 1, s.len());
            assert(head@ =~= s@.take(i as int));
            assert(tail@ =~= s@.skip(i + 1));
            (head, Some(tail))
        },
        None => {
            let all = sub_chars(s, 0, s.len());
            assert(all@ =~= s@);
            (all, None)
        },
    }
}

/// Appends the characters of `s` to `out`.
pub fn append_chars(out: &mut Vec<char>, s: &Vec<char>)
    ensures
        final(out)@ == old(out)@ + s@,
{
    let mut i: usize = 0;
    while i < s.len()
        invariant
            i <= s.len(),
            out@ == old(out)@ + s@.take(i as int),
        decreases s.len() - i,
    {
        out.push(s[i]);
        i = i + 1;
        assert(out@ =~= old(out)@ + s@.take(i as int));
    }
    assert(s@.take(s.len() as int) =~= s@);
}

/// What `splitn(n, c)` yields, as owned vectors.
pub fn splitn_chars(s: &Vec<char>, n: usize, c: char) -> (r: Vec<Vec<char>>)
    ensures
        char_vec_views(r@) == splitn(s@, n as nat, c),
{
    let mut pieces: Vec<Vec<char>> = Vec::new();
    if n == 0 {
        assert(char_vec_views(pieces@) =~= splitn(s@, 0, c));
        return pieces;
    }
    let mut rest = sub_chars(s, 0, s.len());
    assert(rest@ =~= s@);
    let mut done = false;
    assert(char_vec_views(pieces@) + splitn(rest@, n as nat, c) =~= splitn(s@, n as nat, c));
    while !done && pieces.len() + 1 < n
        invariant
            pieces.len() < n,
            char_vec_views(pieces@) + splitn(rest@, (n - pieces.len()) as nat, c) == splitn(
                s@,
                n as nat,
                c,
            ),
            done ==> splitn(rest@, (n - pieces.len()) as nat, c) == seq![rest@],
        decreases (n - pieces.len()) * 2 + (if done {
            0int
        } else {
            1int
        }),
    {
        let ghost k = pieces.len();
        match find_char_index(&rest, c) {
            Some(i) => {
                let head = sub_chars(&rest, 0, i);
                let tail = sub_chars(&rest, i + 1, rest.len());
                assert(head@ =~= rest@.take(i as int));
                assert(tail@ =~= rest@.skip(i + 1));
                let ghost old_views = char_vec_views(pieces@);
                assert(splitn(rest@, (n - k) as nat, c) == seq![head@] + splitn(
                    tail@,
                    (n - k - 1) as nat,
                    c,
                ));
                pieces.push(head);
                assert(char_vec_views(pieces@) =~= old_views.push(head@));
                assert(char_vec_views(pieces@) + splitn(tail@, (n - pieces.len()) as nat, c)
                    =~= old_views + splitn(rest@, (n - k) as nat, c));
                rest = tail;
            },
            None => {
                done = true;
            },
        }
    }
    let ghost old_views = char_vec_views(pieces@);
    let ghost last = rest@;
    assert(splitn(rest@, (n - pieces.len()) as nat, c) == seq![rest@]);
    pieces.push(rest);
    assert(char_vec_views(pieces@) =~= old_views + seq![last]);
    pieces
}

/// The pieces of `s` between the occurrences of `sep`.
pub fn split_chars(s: &Vec<char>, sep: char) -> (r: Vec<Vec<char>>)
    ensures
        char_vec_views(r@) == split_on(s@, sep),
{
    let mut pieces: Vec<Vec<char>> = Vec::new();
    let mut cur: Vec<char> = Vec::new();
    let mut i: usize = 0;
    assert(s@.take(0) =~= Seq::<char>::empty());
    assert(char_vec_views(pieces@).push(cur@) =~= split_on(s@.take(0), sep));
    while i < s.len()
        invariant
            i <= s.len(),
            char_vec_views(pieces@).push(cur@) == split_on(s@.take(i as int), sep),
        decreases s.len() - i,
    {
        let c = s[i];
        let ghost before = s@.take(i as int);
        let ghost old_pieces = char_vec_views(pieces@);
        let ghost old_cur = cur@;
        assert(s@.take(i + 1).drop_last() =~= before);
        assert(s@.take(i + 1).last() == c);
        if c == sep {
            let done = cur;
            pieces.push(done);
            cur = Vec::new();
            assert(char_vec_views(pieces@) =~= old_pieces.push(old_cur));
            assert(char_vec_views(pieces@).push(cur@) =~= split_on(s@.take(i + 1), sep));
        } else {
            cur.push(c);
            let ghost p = old_pieces.push(old_cur);
            assert(char_vec_views(pieces@) =~= old_pieces);
            assert(char_vec_views(pieces@).push(cur@) =~= p.update(
                p.len() - 1,
                p.last().push(c),
            ));
        }
        i = i + 1;
    }
    assert(s@.take(s.len() as int) =~= s@);
    pieces.push(cur);
    assert(char_vec_views(pieces@) =~= split_on(s@, sep));
    pieces
}

/// `s` with each occurrence of the non-empty `pat` replaced by `rep`.
pub fn replace_chars(s: &Vec<char>, pat: &Vec<char>, rep: &Vec<char>) -> (r: Vec<char>)
    requires
        pat.len() > 0,
    ensures
        r@ == replace_all(s@, pat@, rep@),
{
    let mut out: Vec<char> = Vec::new();
    let mut i: usize = 0;
    let n = s.len();
    let p = pat.len();
    assert(s@.skip(0) =~= s@);
    while i < n
        invariant
            i <= n == s.len(),
            p == pat.len() > 0,
            out@ + replace_all(s@.skip(i as int), pat@, rep@) == replace_all(s@, pat@, rep@),
        decreases n - i,
    {
        let ghost rest = s@.skip(i as int);
        if n - i < p {
            assert(replace_all(rest, pat@, rep@) == rest);
            let tail = sub_chars(s, i, n);
            let mut j: usize = 0;
            let ghost out0 = out@;
            while j < tail.len()
                invariant
                    j <= tail.len(),
                    out@ == out0 + tail@.take(j as int),
                decreases tail.len() - j,
            {
                out.push(tail[j]);
                j = j + 1;
                assert(out@ =~= out0 + tail@.take(j as int));
            }
            assert(tail@.take(tail.len() as int) =~= rest);
            assert(s@.skip(n as int) =~= Seq::<char>::empty());
            assert(out@ + replace_all(s@.skip(n as int), pat@, rep@) =~= out@);
            i = n;
        } else {
            let window = sub_chars(s, i, i + p);
            assert(window@ =~= rest.take(p as int));
            if chars_eq(&window, pat) {
                let ghost out0 = out@;
                let mut j: usize = 0;
                while j < rep.len()
                    invariant
                        j <= rep.len(),
                        out@ == out0 + rep@.take(j as int),
                    decreases rep.len() - j,
                {
                    out.push(rep[j]);
                    j = j + 1;
                    assert(out@ =~= out0 + rep@.take(j as int));
                }
                assert(rep@.take(rep.len() as int) =~= rep@);
                assert(rest.skip(p as int) =~= s@.skip(i + p));
                assert(out@ + replace_all(s@.skip(i + p), pat@, rep@) =~= out0 + replace_all(
                    rest,
                    pat@,
                    rep@,
                ));
                i = i + p;
            } else {
                let ghost out0 = out@;
                out.push(s[i]);
                assert(rest.skip(1) =~= s@.skip(i + 1));
                assert(out@ + replace_all(s@.skip(i + 1), pat@, rep@) =~= out0 + replace_all(
                    rest,
                    pat@,
                    rep@,
                ));
                i = i + 1;
            }
        }
    }
    assert(s@.skip(n as int) =~= Seq::<char>::empty());
    assert(out@ + replace_all(s@.skip(n as int), pat@, rep@) =~= out@);
    out
}

} // verus!
