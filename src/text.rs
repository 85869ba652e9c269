use vstd::prelude::*;
use vstd::string::StrSliceExecFns;

verus! {

/// The pieces of `s` between occurrences of `sep`, as `str::split` yields them:
/// an empty `s` gives one empty piece, and `k` separators give `k + 1` pieces.
pub open spec fn split_spec(s: Seq<char>, sep: char) -> Seq<Seq<char>>
    decreases s.len(),
{
    if s.len() == 0 {
        seq![Seq::<char>::empty()]
    } else {
        let prev = split_spec(s.drop_last(), sep);
        if s.last() == sep {
            prev.push(Seq::<char>::empty())
        } else {
            prev.update(prev.len() - 1, prev.last().push(s.last()))
        }
    }
}

/// There is at least one piece, and at most one more than there are characters.
pub proof fn lemma_split_len(s: Seq<char>, sep: char)
    ensures
        1 <= split_spec(s, sep).len() <= s.len() + 1,
    decreases s.len(),
{
    if s.len() > 0 {
        lemma_split_len(s.drop_last(), sep);
    }
}

/// Appending characters that are no `sep` lengthens the last piece.
pub proof fn lemma_split_extend(x: Seq<char>, b: Seq<char>, sep: char)
    requires
        !b.contains(sep),
    ensures
        split_spec(x + b, sep) == split_spec(x, sep).update(
            split_spec(x, sep).len() - 1,
            split_spec(x, sep).last() + b,
        ),
    decreases b.len(),
{
    lemma_split_len(x, sep);
    let pieces = split_spec(x, sep);
    if b.len() == 0 {
        assert(x + b =~= x);
        assert(pieces.last() + b =~= pieces.last());
        assert(pieces.update(pieces.len() - 1, pieces.last() + b) =~= pieces);
    } else {
        let b0 = b.drop_last();
        assert forall|i: int| 0 <= i < b0.len() implies b0[i] != sep by {
            assert(b0[i] == b[i]);
        }
        lemma_split_extend(x, b0, sep);
        assert((x + b).drop_last() =~= x + b0);
        assert(b[b.len() - 1] != sep);
        assert((pieces.last() + b0).push(b.last()) =~= pieces.last() + b);
        assert(split_spec(x + b, sep) =~= pieces.update(pieces.len() - 1, pieces.last() + b));
    }
}

/// `pieces` joined with `sep` between each two neighbours.
pub open spec fn join(pieces: Seq<Seq<char>>, sep: char) -> Seq<char>
    decreases pieces.len(),
{
    if pieces.len() == 0 {
        Seq::empty()
    } else if pieces.len() == 1 {
        pieces[0]
    } else {
        join(pieces.drop_last(), sep).push(sep) + pieces.last()
    }
}

/// Splitting undoes joining, where no piece holds the separator.
pub proof fn lemma_split_join(pieces: Seq<Seq<char>>, sep: char)
    requires
        pieces.len() >= 1,
        forall|i: int| 0 <= i < pieces.len() ==> !(#[trigger] pieces[i]).contains(sep),
    ensures
        split_spec(join(pieces, sep), sep) == pieces,
    decreases pieces.len(),
{
    let e = Seq::<char>::empty();
    if pieces.len() == 1 {
        lemma_split_extend(e, pieces[0], sep);
        assert(e + pieces[0] =~= pieces[0]);
        assert(split_spec(e, sep).update(0, split_spec(e, sep).last() + pieces[0]) =~= pieces);
    } else {
        let front = pieces.drop_last();
        assert forall|i: int| 0 <= i < front.len() implies !(#[trigger] front[i]).contains(sep) by {
            assert(front[i] == pieces[i]);
        }
        lemma_split_join(front, sep);
        let j = join(front, sep).push(sep);
        assert(j.drop_last() =~= join(front, sep));
        assert(split_spec(j, sep) == front.push(e));
        lemma_split_extend(j, pieces.last(), sep);
        assert(e + pieces.last() =~= pieces.last());
        assert(front.push(e).update(front.len() as int, e + pieces.last()) =~= pieces);
    }
}

/// The position of the first `sep` in `s`, or `s.len()` where there is none.
pub open spec fn first_index(s: Seq<char>, sep: char) -> nat
    decreases s.len(),
{
    if s.len() == 0 {
        0
    } else if s[0] == sep {
        0
    } else {
        (1 + first_index(s.skip(1), sep)) as nat
    }
}

/// A position before which no `sep` stands, and at which `sep` stands or `s`
/// ends, is the first position of `sep`.
pub proof fn lemma_first_index(s: Seq<char>, sep: char, p: int)
    requires
        0 <= p <= s.len(),
        forall|j: int| 0 <= j < p ==> s[j] != sep,
        p == s.len() || s[p] == sep,
    ensures
        first_index(s, sep) == p,
    decreases p,
{
    if p > 0 {
        let t = s.skip(1);
        assert forall|j: int| 0 <= j < p - 1 implies t[j] != sep by {
            assert(t[j] == s[j + 1]);
        }
        if p < s.len() {
            assert(t[p - 1] == s[p]);
        }
        lemma_first_index(t, sep, p - 1);
    }
}

/// The position of the first `sep` in `chars`, or its length where there is none.
pub fn find_first(chars: &Vec<char>, sep: char) -> (r: usize)
    ensures
        r == first_index(chars@, sep),
        r <= chars@.len(),
        r < chars@.len() ==> chars@[r as int] == sep,
{
    let mut i: usize = 0;
    while i < chars.len()
        invariant
            i <= chars@.len(),
            forall|j: int| 0 <= j < i ==> chars@[j] != sep,
        decreases chars@.len() - i,
    {
        if chars[i] == sep {
            proof {
                lemma_first_index(chars@, sep, i as int);
            }
            return i;
        }
        i += 1;
    }
    proof {
        lemma_first_index(chars@, sep, i as int);
    }
    i
}

/// What `char::is_alphanumeric` answers for `c` (Unicode's Alphabetic or Numeric).
pub uninterp spec fn alphanumeric_char(c: char) -> bool;

/// What `char::is_uppercase` answers for `c` (Unicode's Uppercase).
pub uninterp spec fn uppercase_char(c: char) -> bool;

/// An ASCII letter or decimal digit.
pub open spec fn ascii_alphanumeric(c: char) -> bool {
    ('0' <= c && c <= '9') || ('a' <= c && c <= 'z') || ('A' <= c && c <= 'Z')
}

/// Every character of `v` is alphanumeric.
pub open spec fn all_alphanumeric(v: Seq<char>) -> bool {
    forall|i: int| 0 <= i < v.len() ==> alphanumeric_char(#[trigger] v[i])
}

/// Some character of `v` is uppercase.
pub open spec fn any_uppercase(v: Seq<char>) -> bool {
    exists|i: int| 0 <= i < v.len() && uppercase_char(#[trigger] v[i])
}

/// Relies on `char::is_alphanumeric`; on ASCII it accepts exactly letters and digits.
#[verifier::external_body]
pub(crate) fn is_alphanumeric(c: char) -> (r: bool)
    ensures
        r == alphanumeric_char(c),
        c <= '\x7f' ==> (r == ascii_alphanumeric(c)),
{
    c.is_alphanumeric()
}

/// Relies on `char::is_uppercase`; on ASCII it accepts exactly `A` to `Z`.
#[verifier::external_body]
pub(crate) fn is_uppercase(c: char) -> (r: bool)
    ensures
        r == uppercase_char(c),
        c <= '\x7f' ==> (r == ('A' <= c && c <= 'Z')),
{
    c.is_uppercase()
}

/// Whether every character of `chars[from..to]` is alphanumeric.
pub fn range_all_alphanumeric(chars: &Vec<char>, from: usize, to: usize) -> (r: bool)
    requires
        from <= to <= chars@.len(),
    ensures
        r == all_alphanumeric(chars@.subrange(from as int, to as int)),
{
    let mut i: usize = from;
    while i < to
        invariant
            from <= i <= to <= chars@.len(),
            forall|j: int| from <= j < i ==> alphanumeric_char(#[trigger] chars@[j]),
        decreases to - i,
    {
        if !is_alphanumeric(chars[i]) {
            assert(chars@.subrange(from as int, to as int)[i - from] == chars@[i as int]);
            return false;
        }
        i += 1;
    }
    assert forall|j: int| 0 <= j < to - from implies alphanumeric_char(
        #[trigger] chars@.subrange(from as int, to as int)[j],
    ) by {
        assert(chars@.subrange(from as int, to as int)[j] == chars@[from + j]);
    }
    true
}

/// Whether some character of `chars[from..to]` is uppercase.
pub fn range_any_uppercase(chars: &Vec<char>, from: usize, to: usize) -> (r: bool)
    requires
        from <= to <= chars@.len(),
    ensures
        r == any_uppercase(chars@.subrange(from as int, to as int)),
{
    let mut i: usize = from;
    while i < to
        invariant
            from <= i <= to <= chars@.len(),
            forall|j: int| from <= j < i ==> !uppercase_char(#[trigger] chars@[j]),
        decreases to - i,
    {
        if is_uppercase(chars[i]) {
            assert(chars@.subrange(from as int, to as int)[i - from] == chars@[i as int]);
            return true;
        }
        i += 1;
    }
    assert forall|j: int| 0 <= j < to - from implies !uppercase_char(
        #[trigger] chars@.subrange(from as int, to as int)[j],
    ) by {
        assert(chars@.subrange(from as int, to as int)[j] == chars@[from + j]);
    }
    false
}

/// The characters of `s`, one by one.
pub fn chars_of(s: &str) -> (r: Vec<char>)
    ensures
        r@ == s@,
{
    let n = s.unicode_len();
    let mut r: Vec<char> = Vec::new();
    let mut i: usize = 0;
    while i < n
        invariant
            n == s@.len(),
            i <= n,
            r@ == s@.take(i as int),
        decreases n - i,
    {
        r.push(s.get_char(i));
        i += 1;
        assert(r@ =~= s@.take(i as int));
    }
    assert(r@ =~= s@);
    r
}

/// The bounds `(start, end)` of each piece of `split_spec(chars@, sep)`.
pub fn split_bounds(chars: &Vec<char>, sep: char) -> (r: Vec<(usize, usize)>)
    ensures
        r@.len() == split_spec(chars@, sep).len(),
        forall|k: int|
            #![trigger r@[k]]
            0 <= k < r@.len() ==> {
                &&& r@[k].0 <= r@[k].1 <= chars@.len()
                &&& chars@.subrange(r@[k].0 as int, r@[k].1 as int) == split_spec(
                    chars@,
                    sep,
                )[k]
            },
{
    let mut r: Vec<(usize, usize)> = Vec::new();
    let mut start: usize = 0;
    let mut i: usize = 0;
    while i < chars.len()
        invariant
            i <= chars@.len(),
            start <= i,
            split_spec(chars@.take(i as int), sep).len() == r@.len() + 1,
            split_spec(chars@.take(i as int), sep).last() == chars@.subrange(start as int, i as int),
            forall|k: int|
                #![trigger r@[k]]
                0 <= k < r@.len() ==> {
                    &&& r@[k].0 <= r@[k].1 <= i
                    &&& chars@.subrange(r@[k].0 as int, r@[k].1 as int) == split_spec(
                        chars@.take(i as int),
                        sep,
                    )[k]
                },
        decreases chars@.len() - i,
    {
        let ghost prev = split_spec(chars@.take(i as int), sep);
        let ghost old_r = r@;
        let ghost old_start = start;
        assert(chars@.take(i + 1).drop_last() =~= chars@.take(i as int));
        let ghost next = split_spec(chars@.take(i + 1), sep);
        if chars[i] == sep {
            r.push((start, i));
            start = i + 1;
            assert(chars@.subrange(start as int, start as int) =~= Seq::<char>::empty());
        } else {
            assert(chars@.subrange(start as int, i + 1) =~= chars@.subrange(
                start as int,
                i as int,
            ).push(chars@[i as int]));
        }
        i += 1;
        assert(split_spec(chars@.take(i as int), sep) == next);
        assert forall|k: int| #![trigger r@[k]] 0 <= k < r@.len() implies {
            &&& r@[k].0 <= r@[k].1 <= i
            &&& chars@.subrange(r@[k].0 as int, r@[k].1 as int) == split_spec(
                chars@.take(i as int),
                sep,
            )[k]
        } by {
            if k < old_r.len() {
                assert(r@[k] == old_r[k]);
                assert(next[k] == prev[k]);
            } else {
                assert(r@[k] == (old_start, (i - 1) as usize));
                assert(next[k] == prev.last());
            }
        }
    }
    assert(chars@.take(chars@.len() as int) =~= chars@);
    let ghost old_r = r@;
    r.push((start, chars.len()));
    assert forall|k: int| #![trigger r@[k]] 0 <= k < r@.len() implies {
        &&& r@[k].0 <= r@[k].1 <= chars@.len()
        &&& chars@.subrange(r@[k].0 as int, r@[k].1 as int) == split_spec(
            chars@,
            sep,
        )[k]
    } by {
        if k < old_r.len() {
            assert(r@[k] == old_r[k]);
        } else {
            assert(r@[k] == (start, chars.len()));
        }
    }
    r
}

/// Whether `a` and `b` hold the same characters.
pub fn same_text(a: &str, b: &str) -> (r: bool)
    ensures
        r == (a@ == b@),
{
    let n = a.unicode_len();
    if n != b.unicode_len() {
        return false;
    }
    let mut i: usize = 0;
    while i < n
        invariant
            n == a@.len(),
            n == b@.len(),
            i <= n,
            forall|j: int| 0 <= j < i ==> a@[j] == b@[j],
        decreases n - i,
    {
        if a.get_char(i) != b.get_char(i) {
            return false;
        }
        i += 1;
    }
    assert(a@ =~= b@);
    true
}

} // verus!
