//! Small verified helpers over byte strings and lists of byte strings.
//!
//! The whole engine represents module paths and file contents as `Vec<u8>`;
//! these helpers give the basic searching, slicing and deduplication
//! operations exact sequence-level contracts.

use vstd::prelude::*;

verus! {

/// The view of an optional byte string.
pub open spec fn opt_view(r: Option<Vec<u8>>) -> Option<Seq<u8>> {
    match r {
        Some(v) => Some(v@),
        None => None,
    }
}

/// The views of a list of byte strings, as a sequence of byte sequences.
pub open spec fn views(s: Seq<Vec<u8>>) -> Seq<Seq<u8>> {
    s.map_values(|v: Vec<u8>| v@)
}

/// Left-to-right deduplication: keeps the first occurrence of each element.
pub open spec fn dedup_first(s: Seq<Seq<u8>>) -> Seq<Seq<u8>>
    decreases s.len(),
{
    if s.len() == 0 {
        Seq::empty()
    } else {
        let d = dedup_first(s.drop_last());
        if d.contains(s.last()) {
            d
        } else {
            d.push(s.last())
        }
    }
}

/// Every element of `dedup_first(s)` is an element of `s` and conversely,
/// and the result has no duplicates.
pub proof fn lemma_dedup_first_set(s: Seq<Seq<u8>>)
    ensures
        forall|x: Seq<u8>| dedup_first(s).contains(x) <==> s.contains(x),
        dedup_first(s).no_duplicates(),
    decreases s.len(),
{
    if s.len() == 0 {
    } else {
        lemma_dedup_first_set(s.drop_last());
        let d = dedup_first(s.drop_last());
        assert forall|x: Seq<u8>| s.contains(x) implies dedup_first(s).contains(x) by {
            let i = choose|i: int| 0 <= i < s.len() && s[i] == x;
            if i < s.len() - 1 {
                assert(s.drop_last()[i] == x);
                assert(s.drop_last().contains(x));
                let j = choose|j: int| 0 <= j < d.len() && d[j] == x;
                assert(dedup_first(s)[j] == x);
            } else {
                assert(x == s.last());
                if d.contains(x) {
                    let j = choose|j: int| 0 <= j < d.len() && d[j] == x;
                    assert(dedup_first(s)[j] == x);
                } else {
                    assert(dedup_first(s)[d.len() as int] == x);
                }
            }
        }
        assert forall|x: Seq<u8>| dedup_first(s).contains(x) implies s.contains(x) by {
            if dedup_first(s.drop_last()).contains(x) {
                assert(s.drop_last().contains(x));
                let i = choose|i: int| 0 <= i < s.drop_last().len() && s.drop_last()[i] == x;
                assert(s[i] == x);
            } else {
                assert(s[s.len() - 1] == x);
            }
        }
    }
}

/// Whether the byte sequences `a` and `b` are equal, decided in executable
/// code.
pub fn bytes_eq(a: &Vec<u8>, b: &Vec<u8>) -> (r: bool)
    ensures
        r == (a@ == b@),
{
    let r = a == b;
    proof {
        if r {
            assert(a@ =~= b@);
        } else {
            if a@ == b@ {
                assert(forall|i: int| 0 <= i < a@.len() ==> a@[i] == b@[i]);
                assert(false);
            }
        }
    }
    r
}

/// Whether `x` occurs in the list `v`.
pub fn list_contains(v: &Vec<Vec<u8>>, x: &Vec<u8>) -> (r: bool)
    ensures
        r == views(v@).contains(x@),
{
    let mut i: usize = 0;
    while i < v.len()
        invariant
            0 <= i <= v@.len(),
            forall|j: int| 0 <= j < i ==> views(v@)[j] != x@,
        decreases v@.len() - i,
    {
        if bytes_eq(&v[i], x) {
            proof {
                assert(views(v@)[i as int] == x@);
            }
            return true;
        }
        i = i + 1;
    }
    proof {
        if views(v@).contains(x@) {
            let j = choose|j: int| 0 <= j < views(v@).len() && views(v@)[j] == x@;
            assert(views(v@)[j] != x@);
        }
    }
    false
}

/// The first position of `x` in `s`, if any.
pub open spec fn find_in(s: Seq<Seq<u8>>, x: Seq<u8>) -> Option<int>
    decreases s.len(),
{
    if s.len() == 0 {
        None
    } else if s.first() == x {
        Some(0)
    } else {
        match find_in(s.drop_first(), x) {
            Some(j) => Some(j + 1),
            None => None,
        }
    }
}

/// `find_in` returns the least position of `x`, and `None` exactly when
/// `x` does not occur.
pub proof fn lemma_find_in(s: Seq<Seq<u8>>, x: Seq<u8>)
    ensures
        match find_in(s, x) {
            Some(i) => 0 <= i < s.len() && s[i] == x && forall|j: int| 0 <= j < i ==> s[j] != x,
            None => forall|j: int| 0 <= j < s.len() ==> s[j] != x,
        },
    decreases s.len(),
{
    if s.len() == 0 {
    } else if s.first() == x {
        assert(s[0] == x);
    } else {
        lemma_find_in(s.drop_first(), x);
        match find_in(s.drop_first(), x) {
            Some(j) => {
                assert(s.drop_first()[j] == s[j + 1]);
                assert forall|k: int| 0 <= k < j + 1 implies s[k] != x by {
                    if k == 0 {
                        assert(s[0] == s.first());
                    } else {
                        assert(s.drop_first()[k - 1] == s[k]);
                        assert(s.drop_first()[k - 1] != x);
                    }
                }
            },
            None => {
                assert forall|k: int| 0 <= k < s.len() implies s[k] != x by {
                    if k == 0 {
                        assert(s[0] == s.first());
                    } else {
                        assert(s.drop_first()[k - 1] == s[k]);
                        assert(s.drop_first()[k - 1] != x);
                    }
                }
            },
        }
    }
}

/// Finds the first position of `x` in the list `v`.
pub fn index_of(v: &Vec<Vec<u8>>, x: &Vec<u8>) -> (r: Option<usize>)
    ensures
        match r {
            Some(i) => find_in(views(v@), x@) == Some(i as int),
            None => find_in(views(v@), x@) is None,
        },
{
    proof {
        lemma_find_in(views(v@), x@);
    }
    let mut i: usize = 0;
    while i < v.len()
        invariant
            0 <= i <= v@.len(),
            forall|j: int| 0 <= j < i ==> views(v@)[j] != x@,
        decreases v@.len() - i,
    {
        if bytes_eq(&v[i], x) {
            proof {
                match find_in(views(v@), x@) {
                    Some(k) => {
                        if k < i {
                            assert(views(v@)[k] != x@);
                        }
                        if i < k {
                            assert(views(v@)[i as int] != x@);
                        }
                    },
                    None => {
                        assert(views(v@)[i as int] != x@);
                    },
                }
            }
            return Some(i);
        }
        i = i + 1;
    }
    None
}

/// Removes duplicates from `v`, keeping the first occurrence of each
/// element in order.
pub fn dedup_list(v: &Vec<Vec<u8>>) -> (r: Vec<Vec<u8>>)
    ensures
        views(r@) == dedup_first(views(v@)),
{
    let mut out: Vec<Vec<u8>> = Vec::new();
    let mut i: usize = 0;
    proof {
        assert(views(v@).take(0) =~= Seq::<Seq<u8>>::empty());
        assert(views(out@) =~= dedup_first(views(v@).take(0)));
    }
    while i < v.len()
        invariant
            0 <= i <= v@.len(),
            views(out@) == dedup_first(views(v@).take(i as int)),
        decreases v@.len() - i,
    {
        proof {
            let t = views(v@).take(i + 1);
            assert(t.drop_last() =~= views(v@).take(i as int));
            assert(t.last() == views(v@)[i as int]);
        }
        if !list_contains(&out, &v[i]) {
            let item = v[i].clone();
            let ghost prev = views(out@);
            out.push(item);
            proof {
                assert(views(out@) =~= prev.push(v@[i as int]@));
            }
        }
        i = i + 1;
    }
    proof {
        assert(views(v@).take(v@.len() as int) =~= views(v@));
    }
    out
}

/// Copies a byte string.
pub fn clone_bytes(v: &Vec<u8>) -> (r: Vec<u8>)
    ensures
        r@ == v@,
{
    let r = slice_of(v, 0, v.len());
    proof {
        assert(v@.subrange(0, v@.len() as int) =~= v@);
    }
    r
}

/// Copies a list of byte strings.
pub fn clone_list(v: &Vec<Vec<u8>>) -> (r: Vec<Vec<u8>>)
    ensures
        views(r@) == views(v@),
{
    let mut out: Vec<Vec<u8>> = Vec::new();
    let mut i: usize = 0;
    while i < v.len()
        invariant
            0 <= i <= v@.len(),
            views(out@) == views(v@).take(i as int),
        decreases v@.len() - i,
    {
        let ghost prev = views(out@);
        out.push(clone_bytes(&v[i]));
        proof {
            assert(views(out@) =~= prev.push(v@[i as int]@));
            assert(views(v@).take(i + 1) =~= views(v@).take(i as int).push(v@[i as int]@));
        }
        i = i + 1;
    }
    proof {
        assert(views(v@).take(v@.len() as int) =~= views(v@));
    }
    out
}

/// Copies the byte range `[from, to)` of `v` into a fresh vector.
pub fn slice_of(v: &Vec<u8>, from: usize, to: usize) -> (r: Vec<u8>)
    requires
        from <= to <= v@.len(),
    ensures
        r@ == v@.subrange(from as int, to as int),
{
    let mut out: Vec<u8> = Vec::new();
    let mut i: usize = from;
    while i < to
        invariant
            from <= i <= to <= v@.len(),
            out@ == v@.subrange(from as int, i as int),
        decreases to - i,
    {
        let ghost prev = out@;
        out.push(v[i]);
        proof {
            assert(out@ =~= v@.subrange(from as int, i + 1));
        }
        i = i + 1;
    }
    out
}

/// Appends all of `src` to `dst`.
pub fn append_bytes(dst: &mut Vec<u8>, src: &Vec<u8>)
    ensures
        final(dst)@ == old(dst)@ + src@,
{
    let mut i: usize = 0;
    while i < src.len()
        invariant
            0 <= i <= src@.len(),
            dst@ == old(dst)@ + src@.take(i as int),
        decreases src@.len() - i,
    {
        dst.push(src[i]);
        proof {
            assert(old(dst)@ + src@.take(i + 1) =~= (old(dst)@ + src@.take(i as int)).push(
                src@[i as int],
            ));
        }
        i = i + 1;
    }
    proof {
        assert(src@.take(src@.len() as int) =~= src@);
    }
}

/// Whether the pattern `p` occurs in `c` starting at position `i`.
pub open spec fn match_at(c: Seq<u8>, i: int, p: Seq<u8>) -> bool {
    &&& 0 <= i
    &&& i + p.len() <= c.len()
    &&& c.subrange(i, i + p.len()) == p
}

/// Decides `match_at` in executable code.
pub fn starts_with_at(c: &Vec<u8>, i: usize, p: &Vec<u8>) -> (r: bool)
    ensures
        r == match_at(c@, i as int, p@),
{
    if p.len() > c.len() || i > c.len() - p.len() {
        proof {
            if match_at(c@, i as int, p@) {
                assert(false);
            }
        }
        return false;
    }
    let mut k: usize = 0;
    while k < p.len()
        invariant
            0 <= k <= p@.len(),
            i + p@.len() <= c@.len(),
            i + p@.len() <= usize::MAX,
            forall|j: int| 0 <= j < k ==> c@[i + j] == p@[j],
        decreases p@.len() - k,
    {
        if c[i + k] != p[k] {
            proof {
                if match_at(c@, i as int, p@) {
                    assert(c@.subrange(i as int, i + p@.len())[k as int] == p@[k as int]);
                }
            }
            return false;
        }
        k = k + 1;
    }
    proof {
        assert(c@.subrange(i as int, i + p@.len()) =~= p@);
    }
    true
}

/// The first position at or after `from` where byte `b` occurs in `c`.
pub open spec fn spec_find_byte(c: Seq<u8>, from: int, b: u8) -> Option<int>
    decreases c.len() - from when 0 <= from <= c.len()
{
    if from >= c.len() {
        None
    } else if c[from] == b {
        Some(from)
    } else {
        spec_find_byte(c, from + 1, b)
    }
}

/// Finds the first occurrence of byte `b` in `c` at or after `from`.
pub fn find_byte(c: &Vec<u8>, from: usize, b: u8) -> (r: Option<usize>)
    requires
        from <= c@.len(),
    ensures
        match r {
            Some(i) => from <= i && Some(i as int) == spec_find_byte(c@, from as int, b),
            None => spec_find_byte(c@, from as int, b) is None,
        },
{
    let mut i: usize = from;
    while i < c.len()
        invariant
            from <= i <= c@.len(),
            spec_find_byte(c@, from as int, b) == spec_find_byte(c@, i as int, b),
        decreases c@.len() - i,
    {
        if c[i] == b {
            return Some(i);
        }
        i = i + 1;
    }
    None
}

/// The decimal digits of `n`, most significant first, as ASCII bytes.
pub open spec fn dec_digits(n: nat) -> Seq<u8>
    decreases n,
{
    if n < 10 {
        seq![(n + 48) as u8]
    } else {
        dec_digits(n / 10).push(((n % 10) + 48) as u8)
    }
}

/// Renders `n` in decimal as ASCII bytes.
pub fn u64_to_dec(n: u64) -> (r: Vec<u8>)
    ensures
        r@ == dec_digits(n as nat),
    decreases n,
{
    if n < 10 {
        let mut out: Vec<u8> = Vec::new();
        out.push((n + 48) as u8);
        proof {
            assert(out@ =~= dec_digits(n as nat));
        }
        out
    } else {
        let mut out = u64_to_dec(n / 10);
        out.push(((n % 10) + 48) as u8);
        out
    }
}

/// Renders a `usize` in decimal as ASCII bytes.
pub fn usize_to_dec(n: usize) -> (r: Vec<u8>)
    ensures
        r@ == dec_digits(n as nat),
{
    u64_to_dec(n as u64)
}

} // verus!
