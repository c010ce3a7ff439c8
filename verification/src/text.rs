//! Character-sequence tools shared by the grammar: finding a separator,
//! splitting on it, joining parts back, and normalizing line endings.

use vstd::prelude::*;

verus! {

/// Index of the first occurrence of `c` in `s`, or `-1` when absent.
pub open spec fn find_char(s: Seq<char>, c: char) -> int
    decreases s.len(),
{
    if s.len() == 0 {
        -1
    } else if s[0] == c {
        0
    } else {
        let r = find_char(s.drop_first(), c);
        if r < 0 {
            -1
        } else {
            r + 1
        }
    }
}

/// What `find_char` returns: either `-1` and no occurrence, or the least
/// index holding `c`.
pub proof fn lemma_find_char(s: Seq<char>, c: char)
    ensures
        find_char(s, c) == -1 || (0 <= find_char(s, c) < s.len()),
        find_char(s, c) == -1 ==> forall|i: int| 0 <= i < s.len() ==> s[i] != c,
        find_char(s, c) >= 0 ==> s[find_char(s, c)] == c,
        forall|i: int| 0 <= i < find_char(s, c) ==> s[i] != c,
    decreases s.len(),
{
    if s.len() > 0 && s[0] != c {
        lemma_find_char(s.drop_first(), c);
        let r = find_char(s.drop_first(), c);
        if r >= 0 {
            assert(s[r + 1] == s.drop_first()[r]);
            assert forall|i: int| 0 <= i < r + 1 implies s[i] != c by {
                if i > 0 {
                    assert(s[i] == s.drop_first()[i - 1]);
                }
            }
        } else {
            assert forall|i: int| 0 <= i < s.len() implies s[i] != c by {
                if i > 0 {
                    assert(s[i] == s.drop_first()[i - 1]);
                }
            }
        }
    }
}

/// `find_char` agrees with `Seq::contains`.
pub proof fn lemma_find_char_contains(s: Seq<char>, c: char)
    ensures
        (find_char(s, c) >= 0) == s.contains(c),
{
    lemma_find_char(s, c);
    if s.contains(c) {
        let i = choose|i: int| 0 <= i < s.len() && s[i] == c;
        assert(!(find_char(s, c) == -1));
    }
}

/// `s` split at every occurrence of `c`; always at least one part, and the
/// separators themselves are dropped.
pub open spec fn split_char(s: Seq<char>, c: char) -> Seq<Seq<char>>
    decreases s.len(),
{
    let i = find_char(s, c);
    if i < 0 || i >= s.len() {
        seq![s]
    } else {
        seq![s.take(i)] + split_char(s.skip(i + 1), c)
    }
}

/// Parts interleaved with the single-character separator `c`.
pub open spec fn join_char(parts: Seq<Seq<char>>, c: char) -> Seq<char> {
    join_seq(parts, seq![c])
}

/// Parts interleaved with an arbitrary separator sequence.
pub open spec fn join_seq(parts: Seq<Seq<char>>, sep: Seq<char>) -> Seq<char>
    decreases parts.len(),
{
    if parts.len() == 0 {
        Seq::empty()
    } else if parts.len() == 1 {
        parts[0]
    } else {
        parts[0] + sep + join_seq(parts.drop_first(), sep)
    }
}

/// Splitting always yields at least one part.
pub proof fn lemma_split_char_len(s: Seq<char>, c: char)
    ensures
        split_char(s, c).len() >= 1,
    decreases s.len(),
{
    let i = find_char(s, c);
    lemma_find_char(s, c);
    if !(i < 0 || i >= s.len()) {
        lemma_split_char_len(s.skip(i + 1), c);
    }
}

/// Joining the parts of a split restores the original sequence.
pub proof fn lemma_join_split(s: Seq<char>, c: char)
    ensures
        join_char(split_char(s, c), c) =~= s,
    decreases s.len(),
{
    let i = find_char(s, c);
    lemma_find_char(s, c);
    if i < 0 || i >= s.len() {
    } else {
        lemma_join_split(s.skip(i + 1), c);
        lemma_split_char_len(s.skip(i + 1), c);
        let parts = seq![s.take(i)] + split_char(s.skip(i + 1), c);
        assert(parts.drop_first() =~= split_char(s.skip(i + 1), c));
        assert(s.take(i) + seq![c] + s.skip(i + 1) =~= s);
    }
}

/// When no part contains the separator, splitting the join restores the
/// parts exactly (provided there is at least one part).
pub proof fn lemma_split_join(parts: Seq<Seq<char>>, c: char)
    requires
        parts.len() >= 1,
        forall|k: int| 0 <= k < parts.len() ==> !parts[k].contains(c),
    ensures
        split_char(join_char(parts, c), c) =~= parts,
    decreases parts.len(),
{
    if parts.len() == 1 {
        let s = parts[0];
        lemma_find_char_contains(s, c);
        assert(split_char(s, c) =~= seq![s]);
    } else {
        let s = join_char(parts, c);
        let head = parts[0];
        let rest = parts.drop_first();
        assert(s == head + seq![c] + join_char(rest, c));
        lemma_find_char_contains(head, c);
        lemma_find_char(head, c);
        lemma_find_char_prefix(head, join_char(rest, c), c);
        let i = find_char(s, c);
        assert(i == head.len());
        assert(s.take(i) =~= head);
        assert(s.skip(i + 1) =~= join_char(rest, c));
        assert forall|k: int| 0 <= k < rest.len() implies !rest[k].contains(c) by {
            assert(rest[k] == parts[k + 1]);
        }
        lemma_split_join(rest, c);
    }
}

/// The least index is pinned down by a witness occurrence with nothing
/// before it.
pub proof fn lemma_find_char_at(s: Seq<char>, c: char, i: int)
    requires
        0 <= i < s.len(),
        s[i] == c,
        forall|j: int| 0 <= j < i ==> s[j] != c,
    ensures
        find_char(s, c) == i,
{
    lemma_find_char(s, c);
    lemma_find_char_contains(s, c);
    assert(s.contains(c)) by {
        assert(s[i] == c);
    }
    let r = find_char(s, c);
    if r < i {
        assert(s[r] == c);
    }
}

/// When `c` occurs nowhere in `s`, `find_char` reports its absence.
pub proof fn lemma_find_char_absent(s: Seq<char>, c: char)
    requires
        forall|j: int| 0 <= j < s.len() ==> s[j] != c,
    ensures
        find_char(s, c) == -1,
{
    lemma_find_char_contains(s, c);
    if s.contains(c) {
        let i = choose|i: int| 0 <= i < s.len() && s[i] == c;
    }
}

/// The first separator in `head + [c] + tail` sits right after `head`
/// when `head` itself is free of `c`.
pub proof fn lemma_find_char_prefix(head: Seq<char>, tail: Seq<char>, c: char)
    requires
        !head.contains(c),
    ensures
        find_char(head + seq![c] + tail, c) == head.len(),
    decreases head.len(),
{
    let s = head + seq![c] + tail;
    if head.len() == 0 {
        assert(s[0] == c);
    } else {
        assert(s[0] == head[0]);
        assert(head.contains(head[0])) by {
            assert(head[0] == head[0]);
        }
        assert(s[0] != c);
        assert(!head.drop_first().contains(c)) by {
            if head.drop_first().contains(c) {
                let j = choose|j: int| 0 <= j < head.drop_first().len() && head.drop_first()[j] == c;
                assert(head[j + 1] == c);
            }
        }
        lemma_find_char_prefix(head.drop_first(), tail, c);
        assert(s.drop_first() =~= head.drop_first() + seq![c] + tail);
    }
}

/// Splitting distributes over a separator between two sequences: the
/// parts of the whole are the parts of each side, in order.
pub proof fn lemma_split_concat(a: Seq<char>, b: Seq<char>, c: char)
    ensures
        split_char(a + seq![c] + b, c) =~= split_char(a, c) + split_char(b, c),
    decreases a.len(),
{
    let s = a + seq![c] + b;
    let i = find_char(a, c);
    lemma_find_char(a, c);
    if i < 0 {
        lemma_find_char_contains(a, c);
        assert(!a.contains(c));
        lemma_find_char_prefix(a, b, c);
        assert(find_char(s, c) == a.len());
        assert(s.take(a.len() as int) =~= a);
        assert(s.skip(a.len() as int + 1) =~= b);
        assert(split_char(a, c) =~= seq![a]);
        assert(split_char(s, c) =~= seq![a] + split_char(b, c));
    } else {
        assert(s[i] == c);
        assert forall|j: int| 0 <= j < i implies s[j] != c by {
            assert(s[j] == a[j]);
        }
        lemma_find_char_at(s, c, i);
        assert(s.take(i) =~= a.take(i));
        assert(s.skip(i + 1) =~= a.skip(i + 1) + seq![c] + b);
        lemma_split_concat(a.skip(i + 1), b, c);
        assert(split_char(s, c) =~= seq![a.take(i)] + (split_char(a.skip(i + 1), c) + split_char(
            b,
            c,
        )));
        assert(split_char(a, c) =~= seq![a.take(i)] + split_char(a.skip(i + 1), c));
        assert(seq![a.take(i)] + (split_char(a.skip(i + 1), c) + split_char(b, c)) =~= (seq![
            a.take(i),
        ] + split_char(a.skip(i + 1), c)) + split_char(b, c));
    }
}

/// Splitting a sequence without the separator yields that one part.
pub proof fn lemma_split_single(s: Seq<char>, c: char)
    requires
        !s.contains(c),
    ensures
        split_char(s, c) =~= seq![s],
{
    lemma_find_char_contains(s, c);
}

/// Appending one more part extends a join by one separator and that part.
pub proof fn lemma_join_seq_push(parts: Seq<Seq<char>>, sep: Seq<char>, p: Seq<char>)
    ensures
        parts.len() == 0 ==> join_seq(parts.push(p), sep) =~= p,
        parts.len() >= 1 ==> join_seq(parts.push(p), sep) =~= join_seq(parts, sep) + sep + p,
    decreases parts.len(),
{
    if parts.len() == 0 {
        assert(parts.push(p)[0] =~= p);
    } else if parts.len() == 1 {
        assert(parts.push(p).drop_first() =~= seq![p]);
        assert(join_seq(seq![p], sep) == p);
    } else {
        lemma_join_seq_push(parts.drop_first(), sep, p);
        assert(parts.push(p).drop_first() =~= parts.drop_first().push(p));
    }
}

/// Every CRLF pair collapsed to a bare LF; all other characters, including
/// a carriage return not followed by a line feed, are kept.
pub open spec fn normalize_endings(s: Seq<char>) -> Seq<char>
    decreases s.len(),
{
    if s.len() >= 2 && s[0] == '\r' && s[1] == '\n' {
        seq!['\n'] + normalize_endings(s.skip(2))
    } else if s.len() >= 1 {
        seq![s[0]] + normalize_endings(s.skip(1))
    } else {
        Seq::empty()
    }
}

/// Every LF expanded to a CRLF pair.
pub open spec fn expand_lf(s: Seq<char>) -> Seq<char>
    decreases s.len(),
{
    if s.len() == 0 {
        Seq::empty()
    } else if s[0] == '\n' {
        seq!['\r', '\n'] + expand_lf(s.skip(1))
    } else {
        seq![s[0]] + expand_lf(s.skip(1))
    }
}

/// Normalization leaves a sequence without carriage returns untouched.
pub proof fn lemma_normalize_no_cr(s: Seq<char>)
    requires
        !s.contains('\r'),
    ensures
        normalize_endings(s) =~= s,
    decreases s.len(),
{
    if s.len() >= 1 {
        assert(s[0] != '\r') by {
            if s[0] == '\r' {
                assert(s.contains('\r'));
            }
        }
        assert(!s.skip(1).contains('\r')) by {
            if s.skip(1).contains('\r') {
                let j = choose|j: int| 0 <= j < s.skip(1).len() && s.skip(1)[j] == '\r';
                assert(s[j + 1] == '\r');
                assert(s.contains('\r'));
            }
        }
        lemma_normalize_no_cr(s.skip(1));
        assert(normalize_endings(s) == seq![s[0]] + normalize_endings(s.skip(1)));
    }
}

/// Expansion distributes over concatenation.
pub proof fn lemma_expand_lf_add(a: Seq<char>, b: Seq<char>)
    ensures
        expand_lf(a + b) =~= expand_lf(a) + expand_lf(b),
    decreases a.len(),
{
    if a.len() == 0 {
        assert(a + b =~= b);
    } else {
        lemma_expand_lf_add(a.skip(1), b);
        assert((a + b).skip(1) =~= a.skip(1) + b);
        assert((a + b)[0] == a[0]);
    }
}

/// Expansion leaves a sequence without line feeds untouched.
pub proof fn lemma_expand_lf_no_lf(s: Seq<char>)
    requires
        !s.contains('\n'),
    ensures
        expand_lf(s) =~= s,
    decreases s.len(),
{
    if s.len() >= 1 {
        assert(s[0] != '\n') by {
            if s[0] == '\n' {
                assert(s.contains('\n'));
            }
        }
        assert(!s.skip(1).contains('\n')) by {
            if s.skip(1).contains('\n') {
                let j = choose|j: int| 0 <= j < s.skip(1).len() && s.skip(1)[j] == '\n';
                assert(s[j + 1] == '\n');
                assert(s.contains('\n'));
            }
        }
        lemma_expand_lf_no_lf(s.skip(1));
    }
}

/// Normalization undoes expansion on a sequence without carriage returns.
pub proof fn lemma_normalize_expand(s: Seq<char>)
    requires
        !s.contains('\r'),
    ensures
        normalize_endings(expand_lf(s)) =~= s,
    decreases s.len(),
{
    if s.len() >= 1 {
        assert(s[0] != '\r') by {
            if s[0] == '\r' {
                assert(s.contains('\r'));
            }
        }
        assert(!s.skip(1).contains('\r')) by {
            if s.skip(1).contains('\r') {
                let j = choose|j: int| 0 <= j < s.skip(1).len() && s.skip(1)[j] == '\r';
                assert(s[j + 1] == '\r');
                assert(s.contains('\r'));
            }
        }
        lemma_normalize_expand(s.skip(1));
        if s[0] == '\n' {
            let e = expand_lf(s);
            assert(e == seq!['\r', '\n'] + expand_lf(s.skip(1)));
            assert(e[0] == '\r' && e[1] == '\n');
            assert(e.skip(2) =~= expand_lf(s.skip(1)));
            assert(normalize_endings(e) == seq!['\n'] + normalize_endings(e.skip(2)));
            assert(seq!['\n'] + s.skip(1) =~= s);
        } else {
            let e = expand_lf(s);
            assert(e == seq![s[0]] + expand_lf(s.skip(1)));
            assert(e[0] == s[0]);
            if e.len() >= 2 && e[0] == '\r' && e[1] == '\n' {
                assert(false);
            }
            assert(e.skip(1) =~= expand_lf(s.skip(1)));
            assert(seq![s[0]] + s.skip(1) =~= s);
        }
    }
}

/// The character sequences held by a sequence of character vectors.
pub open spec fn vviews(v: Seq<Vec<char>>) -> Seq<Seq<char>> {
    v.map_values(|x: Vec<char>| x@)
}

/// First occurrence of `c` in `s` at or after `start`.
pub fn find_from(s: &Vec<char>, c: char, start: usize) -> (r: Option<usize>)
    requires
        start <= s@.len(),
    ensures
        match r {
            Some(j) => start <= j < s@.len() && s@[j as int] == c && forall|k: int|
                start <= k < j ==> s@[k] != c,
            None => forall|k: int| start <= k < s@.len() ==> s@[k] != c,
        },
{
    let mut i: usize = start;
    while i < s.len()
        invariant
            start <= i <= s@.len(),
            forall|k: int| start <= k < i ==> s@[k] != c,
        decreases s@.len() - i,
    {
        if s[i] == c {
            return Some(i);
        }
        i = i + 1;
    }
    None
}

/// A copy of `s[a..b]`.
pub fn subvec(s: &Vec<char>, a: usize, b: usize) -> (r: Vec<char>)
    requires
        a <= b <= s@.len(),
    ensures
        r@ == s@.subrange(a as int, b as int),
{
    let mut r: Vec<char> = Vec::new();
    let mut i: usize = a;
    while i < b
        invariant
            a <= i <= b <= s@.len(),
            r@ =~= s@.subrange(a as int, i as int),
        decreases b - i,
    {
        r.push(s[i]);
        i = i + 1;
    }
    r
}

/// `s` split at every occurrence of `c`, matching [`split_char`].
pub fn split_vec(s: &Vec<char>, c: char) -> (parts: Vec<Vec<char>>)
    ensures
        vviews(parts@) =~= split_char(s@, c),
        parts@.len() >= 1,
{
    let mut parts: Vec<Vec<char>> = Vec::new();
    let mut start: usize = 0;
    proof {
        assert(s@.skip(0) =~= s@);
        assert(vviews(parts@) + split_char(s@, c) =~= split_char(s@, c));
    }
    loop
        invariant
            start <= s@.len(),
            split_char(s@, c) =~= vviews(parts@) + split_char(s@.skip(start as int), c),
        decreases s@.len() - start + 1,
    {
        let n = s.len();
        let ghost rest = s@.skip(start as int);
        match find_from(s, c, start) {
            Some(j) => {
                let chunk = subvec(s, start, j);
                proof {
                    assert(rest[j - start] == c);
                    assert forall|k: int| 0 <= k < j - start implies rest[k] != c by {
                        assert(rest[k] == s@[start + k]);
                    }
                    lemma_find_char_at(rest, c, j - start);
                    assert(rest.take(j - start) =~= s@.subrange(start as int, j as int));
                    assert(rest.skip(j - start + 1) =~= s@.skip(j + 1));
                }
                let ghost old_parts = parts@;
                parts.push(chunk);
                proof {
                    assert(vviews(parts@) =~= vviews(old_parts).push(chunk@));
                    assert(vviews(old_parts).push(chunk@) + split_char(s@.skip(j + 1), c)
                        =~= vviews(old_parts) + split_char(rest, c));
                }
                start = j + 1;
            },
            None => {
                let chunk = subvec(s, start, n);
                proof {
                    assert forall|k: int| 0 <= k < rest.len() implies rest[k] != c by {
                        assert(rest[k] == s@[start + k]);
                    }
                    lemma_find_char_absent(rest, c);
                    assert(split_char(rest, c) =~= seq![rest]);
                    assert(chunk@ =~= rest);
                }
                let ghost old_parts = parts@;
                parts.push(chunk);
                proof {
                    assert(vviews(parts@) =~= vviews(old_parts).push(chunk@));
                    assert(vviews(old_parts).push(rest) + Seq::<Seq<char>>::empty()
                        =~= vviews(old_parts) + seq![rest]);
                    lemma_split_char_len(s@, c);
                }
                return parts;
            },
        }
    }
}

/// The parts joined with `sep` between them, matching [`join_seq`].
pub fn join_vec(parts: &Vec<Vec<char>>, sep: &Vec<char>) -> (r: Vec<char>)
    ensures
        r@ =~= join_seq(vviews(parts@), sep@),
{
    let mut r: Vec<char> = Vec::new();
    let mut i: usize = 0;
    while i < parts.len()
        invariant
            i <= parts@.len(),
            r@ =~= join_seq(vviews(parts@).take(i as int), sep@),
        decreases parts@.len() - i,
    {
        proof {
            lemma_join_seq_push(vviews(parts@).take(i as int), sep@, parts@[i as int]@);
            assert(vviews(parts@).take(i as int).push(parts@[i as int]@)
                =~= vviews(parts@).take(i + 1));
        }
        if i > 0 {
            let mut k: usize = 0;
            while k < sep.len()
                invariant
                    k <= sep@.len(),
                    r@ =~= join_seq(vviews(parts@).take(i as int), sep@) + sep@.take(k as int),
                    i < parts@.len(),
                decreases sep@.len() - k,
            {
                r.push(sep[k]);
                proof {
                    assert(sep@.take(k as int).push(sep@[k as int]) =~= sep@.take(k + 1));
                }
                k = k + 1;
            }
            proof {
                assert(sep@.take(sep@.len() as int) =~= sep@);
            }
        }
        let part = &parts[i];
        let mut k: usize = 0;
        let ghost base = r@;
        while k < part.len()
            invariant
                k <= part@.len(),
                r@ =~= base + part@.take(k as int),
            decreases part@.len() - k,
        {
            r.push(part[k]);
            proof {
                assert(part@.take(k as int).push(part@[k as int]) =~= part@.take(k + 1));
            }
            k = k + 1;
        }
        proof {
            assert(part@.take(part@.len() as int) =~= part@);
        }
        i = i + 1;
    }
    proof {
        assert(vviews(parts@).take(parts@.len() as int) =~= vviews(parts@));
    }
    r
}

/// The parts from index `k` on, joined with the single-character
/// separator `c`.
pub fn join_tail(parts: &Vec<Vec<char>>, k: usize, c: char) -> (r: Vec<char>)
    requires
        k <= parts@.len(),
    ensures
        r@ =~= join_char(vviews(parts@).skip(k as int), c),
{
    let ghost tail = vviews(parts@).skip(k as int);
    let mut r: Vec<char> = Vec::new();
    let mut i: usize = k;
    proof {
        assert(tail.take(0) =~= Seq::<Seq<char>>::empty());
    }
    while i < parts.len()
        invariant
            k <= i <= parts@.len(),
            tail == vviews(parts@).skip(k as int),
            r@ =~= join_seq(tail.take(i - k), seq![c]),
        decreases parts@.len() - i,
    {
        proof {
            lemma_join_seq_push(tail.take(i - k), seq![c], parts@[i as int]@);
            assert(tail[i - k] == parts@[i as int]@);
            assert(tail.take(i - k).push(parts@[i as int]@) =~= tail.take(i - k + 1));
        }
        if i > k {
            r.push(c);
        }
        let mut j: usize = 0;
        let part = &parts[i];
        let ghost base = r@;
        while j < part.len()
            invariant
                j <= part@.len(),
                r@ =~= base + part@.take(j as int),
            decreases part@.len() - j,
        {
            r.push(part[j]);
            proof {
                assert(part@.take(j as int).push(part@[j as int]) =~= part@.take(j + 1));
            }
            j = j + 1;
        }
        proof {
            assert(part@.take(part@.len() as int) =~= part@);
            if i == k {
                assert(Seq::<char>::empty() + part@ =~= part@);
            }
        }
        i = i + 1;
    }
    proof {
        assert(tail.take(parts@.len() - k) =~= tail);
    }
    r
}

/// CRLF pairs collapsed to LF, matching [`normalize_endings`].
pub fn normalize_vec(s: &Vec<char>) -> (r: Vec<char>)
    ensures
        r@ =~= normalize_endings(s@),
{
    let mut r: Vec<char> = Vec::new();
    let mut i: usize = 0;
    proof {
        assert(s@.skip(0) =~= s@);
    }
    while i < s.len()
        invariant
            i <= s@.len(),
            normalize_endings(s@) =~= r@ + normalize_endings(s@.skip(i as int)),
        decreases s@.len() - i,
    {
        let ghost rest = s@.skip(i as int);
        if s[i] == '\r' && i + 1 < s.len() && s[i + 1] == '\n' {
            proof {
                assert(rest[0] == '\r' && rest[1] == '\n');
                assert(rest.skip(2) =~= s@.skip(i + 2));
            }
            r.push('\n');
            i = i + 2;
        } else {
            proof {
                assert(rest[0] == s@[i as int]);
                assert(!(rest.len() >= 2 && rest[0] == '\r' && rest[1] == '\n')) by {
                    if rest.len() >= 2 {
                        assert(rest[1] == s@[i + 1]);
                    }
                }
                assert(rest.skip(1) =~= s@.skip(i + 1));
            }
            r.push(s[i]);
            i = i + 1;
        }
    }
    proof {
        assert(s@.skip(s@.len() as int) =~= Seq::<char>::empty());
    }
    r
}

} // verus!
