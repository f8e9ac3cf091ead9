use vstd::prelude::*;
use vstd::string::StrSliceExecFns;

verus! {

broadcast use vstd::string::group_string_axioms;

/// The pieces of `s` between occurrences of `sep`, in order (one more piece than there are
/// separators; pieces may be empty).
pub open spec fn split_spec(s: Seq<char>, sep: char) -> Seq<Seq<char>>
    decreases s.len(),
{
    if s.len() == 0 {
        seq![Seq::<char>::empty()]
    } else {
        let p = split_spec(s.drop_last(), sep);
        if s.last() == sep {
            p.push(Seq::<char>::empty())
        } else {
            p.update(p.len() - 1, p.last().push(s.last()))
        }
    }
}

pub proof fn lemma_split_nonempty(s: Seq<char>, sep: char)
    ensures
        split_spec(s, sep).len() >= 1,
    decreases s.len(),
{
    if s.len() > 0 {
        lemma_split_nonempty(s.drop_last(), sep);
    }
}

/// `s` with every leading copy of the non-empty `pat` removed.
pub open spec fn trim_start_spec(s: Seq<char>, pat: Seq<char>) -> Seq<char>
    decreases s.len(),
{
    if pat.len() > 0 && s.len() >= pat.len() && s.take(pat.len() as int) == pat {
        trim_start_spec(s.skip(pat.len() as int), pat)
    } else {
        s
    }
}

pub open spec fn starts_with_spec(s: Seq<char>, pat: Seq<char>) -> bool {
    s.len() >= pat.len() && s.take(pat.len() as int) == pat
}

pub open spec fn views(parts: Seq<&str>) -> Seq<Seq<char>> {
    parts.map_values(|p: &str| p@)
}

/// The characters of `s`.
pub fn chars_of(s: &str) -> (res: Vec<char>)
    ensures
        res@ == s@,
{
    let mut out: Vec<char> = Vec::new();
    for c in it: s.chars()
        invariant
            it.seq() == s@,
            out@ == s@.take(it.index()),
    {
        proof {
            assert(s@.take(it.index() + 1) == s@.take(it.index()).push(c));
        }
        out.push(c);
    }
    proof {
        assert(s@.take(s@.len() as int) == s@);
    }
    out
}

/// Whether two strings hold the same characters.
pub fn str_eq(a: &str, b: &str) -> (res: bool)
    ensures
        res == (a@ == b@),
{
    let x = chars_of(a);
    let y = chars_of(b);
    if x.len() != y.len() {
        return false;
    }
    let mut i: usize = 0;
    while i < x.len()
        invariant
            x@ == a@,
            y@ == b@,
            x.len() == y.len(),
            0 <= i <= x.len(),
            forall|j: int| 0 <= j < i ==> x@[j] == y@[j],
        decreases x.len() - i,
    {
        if x[i] != y[i] {
            return false;
        }
        i = i + 1;
    }
    proof {
        assert(a@ =~= b@);
    }
    true
}

/// Whether `s` begins with `pat`.
pub fn starts_with(s: &str, pat: &str) -> (res: bool)
    ensures
        res == starts_with_spec(s@, pat@),
{
    let x = chars_of(s);
    let y = chars_of(pat);
    if x.len() < y.len() {
        return false;
    }
    let mut i: usize = 0;
    while i < y.len()
        invariant
            x@ == s@,
            y@ == pat@,
            x.len() >= y.len(),
            0 <= i <= y.len(),
            forall|j: int| 0 <= j < i ==> x@[j] == y@[j],
        decreases y.len() - i,
    {
        if x[i] != y[i] {
            proof {
                assert(s@.take(pat@.len() as int)[i as int] != pat@[i as int]);
            }
            return false;
        }
        i = i + 1;
    }
    proof {
        assert(s@.take(pat@.len() as int) =~= pat@);
    }
    true
}

/// Splits `s` at every occurrence of `sep`.
pub fn split_char<'a>(s: &'a str, sep: char) -> (res: Vec<&'a str>)
    ensures
        views(res@) == split_spec(s@, sep),
{
    let n = s.unicode_len();
    let mut parts: Vec<&'a str> = Vec::new();
    let mut start: usize = 0;
    let mut i: usize = 0;
    proof {
        assert(s@.take(0) =~= Seq::<char>::empty());
        assert(views(parts@) + seq![s@.subrange(0, 0)] =~= split_spec(s@.take(0), sep));
    }
    for c in it: s.chars()
        invariant
            it.seq() == s@,
            n == s@.len(),
            i == it.index(),
            0 <= start <= i <= n,
            views(parts@) + seq![s@.subrange(start as int, i as int)] == split_spec(
                s@.take(i as int),
                sep,
            ),
    {
        let ghost prev = views(parts@) + seq![s@.subrange(start as int, i as int)];
        proof {
            let t = s@.take(i + 1);
            assert(t.drop_last() =~= s@.take(i as int));
            assert(t.last() == c);
            lemma_split_nonempty(s@.take(i as int), sep);
        }
        if c == sep {
            let piece = s.substring_char(start, i);
            let ghost old_parts = parts@;
            parts.push(piece);
            start = i + 1;
            proof {
                assert(parts@ == old_parts.push(piece));
                assert(views(parts@) =~= views(old_parts).push(piece@));
                assert(s@.subrange(start as int, (i + 1) as int) =~= Seq::<char>::empty());
                assert(views(parts@) + seq![s@.subrange(start as int, (i + 1) as int)] =~= prev.push(
                    Seq::<char>::empty(),
                ));
            }
        } else {
            proof {
                assert(s@.subrange(start as int, (i + 1) as int) =~= s@.subrange(
                    start as int,
                    i as int,
                ).push(c));
                assert(views(parts@) + seq![s@.subrange(start as int, (i + 1) as int)] =~= prev.update(
                    prev.len() - 1,
                    prev.last().push(c),
                ));
            }
        }
        i = i + 1;
    }
    let last = s.substring_char(start, n);
    let ghost old_parts = parts@;
    parts.push(last);
    proof {
        assert(s@.take(n as int) =~= s@);
        assert(parts@ == old_parts.push(last));
        assert(views(parts@) =~= views(old_parts).push(last@));
    }
    parts
}

/// `s` with every leading copy of `pat` removed.
pub fn trim_start_matches<'a>(s: &'a str, pat: &str) -> (res: &'a str)
    requires
        pat@.len() > 0,
    ensures
        res@ == trim_start_spec(s@, pat@),
{
    let x = chars_of(s);
    let y = chars_of(pat);
    let n = x.len();
    let m = y.len();
    let mut pos: usize = 0;
    proof {
        assert(s@.skip(0) =~= s@);
    }
    loop
        invariant
            x@ == s@,
            y@ == pat@,
            n == s@.len(),
            m == pat@.len(),
            m > 0,
            0 <= pos <= n,
            trim_start_spec(s@, pat@) == trim_start_spec(s@.skip(pos as int), pat@),
        ensures
            0 <= pos <= n,
            trim_start_spec(s@, pat@) == s@.skip(pos as int),
        decreases n - pos,
    {
        if n - pos < m {
            break ;
        }
        let mut i: usize = 0;
        let mut matched = true;
        while i < m
            invariant
                x@ == s@,
                y@ == pat@,
                n == s@.len(),
                m == pat@.len(),
                pos + m <= n,
                0 <= i <= m,
                matched ==> forall|j: int| 0 <= j < i ==> x@[pos + j] == y@[j],
                !matched ==> s@.skip(pos as int).take(m as int) != pat@,
            decreases m - i,
        {
            if x[pos + i] != y[i] {
                proof {
                    assert(s@.skip(pos as int).take(m as int)[i as int] == x@[pos + i]);
                }
                matched = false;
            }
            i = i + 1;
        }
        if !matched {
            break ;
        }
        proof {
            assert forall|j: int| 0 <= j < m implies s@.skip(pos as int).take(m as int)[j] == pat@[j] by {
                assert(x@[pos + j] == y@[j]);
            }
        }
        proof {
            assert(s@.skip(pos as int).take(m as int) =~= pat@);
            assert(s@.skip(pos as int).skip(m as int) =~= s@.skip(pos + m));
        }
        pos = pos + m;
    }
    proof {
        assert(s@.subrange(pos as int, n as int) =~= s@.skip(pos as int));
    }
    s.substring_char(pos, n)
}

} // verus!
