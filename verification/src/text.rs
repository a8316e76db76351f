use vstd::prelude::*;

verus! {

/// The UTF-8 bytes of a string.
pub open spec fn text(s: &str) -> Seq<u8> {
    vstd::utf8::encode_utf8(s@)
}

/// The contents of each byte vector of a sequence.
pub open spec fn views(v: Seq<Vec<u8>>) -> Seq<Seq<u8>> {
    v.map_values(|x: Vec<u8>| x@)
}

/// The ASCII digits of `n` in base ten, most significant first.
pub open spec fn decimal(n: nat) -> Seq<u8>
    decreases n,
{
    if n < 10 {
        seq![(48 + n) as u8]
    } else {
        decimal(n / 10) + seq![(48 + n % 10) as u8]
    }
}

/// The number a string of decimal digits stands for, most significant digit
/// first: each byte counts for its distance above the digit zero (48).
pub open spec fn digits_value(s: Seq<u8>) -> int
    decreases s.len(),
{
    if s.len() == 0 {
        0
    } else {
        digits_value(s.drop_last()) * 10 + (s.last() - 48)
    }
}

/// `decimal(n)` is the base-ten numeral of `n`: a non-empty string of ASCII
/// digits, without a leading zero unless `n` is zero, that stands for `n`.
pub proof fn law_decimal_is_numeral(n: nat)
    ensures
        decimal(n).len() >= 1,
        forall|i: int| 0 <= i < decimal(n).len() ==> 48 <= #[trigger] decimal(n)[i] <= 57,
        decimal(n)[0] == 48 ==> n == 0,
        digits_value(decimal(n)) == n,
    decreases n,
{
    if n >= 10 {
        law_decimal_is_numeral(n / 10);
        let d = decimal(n / 10);
        let s = decimal(n);
        let last: u8 = (48 + n % 10) as u8;
        assert(s == d + seq![last]);
        assert(s.drop_last() =~= d);
        assert(s.last() == last);
        assert(last as int == 48 + n % 10);
        assert(digits_value(s) == digits_value(d) * 10 + (last - 48));
        assert forall|i: int| 0 <= i < s.len() implies 48 <= #[trigger] s[i] <= 57 by {
            if i < d.len() {
                assert(s[i] == d[i]);
            }
        }
        assert(s[0] == d[0]);
        assert(n / 10 * 10 + n % 10 == n);
        assert(digits_value(d) == n / 10);
        assert(digits_value(s) == (n / 10) * 10 + n % 10);
    } else {
        let s = decimal(n);
        assert(s.drop_last() =~= Seq::<u8>::empty());
        assert(s.last() as int == 48 + n);
        assert(digits_value(s.drop_last()) == 0);
        assert(digits_value(s) == digits_value(s.drop_last()) * 10 + (s.last() - 48));
    }
}

/// Writes `n` in base ten.
pub fn decimal_bytes(n: u64) -> (r: Vec<u8>)
    ensures
        r@ == decimal(n as nat),
    decreases n,
{
    if n < 10 {
        let d: u8 = (48 + n) as u8;
        let mut v: Vec<u8> = Vec::new();
        v.push(d);
        v
    } else {
        let mut v = decimal_bytes(n / 10);
        let d: u8 = (48 + n % 10) as u8;
        v.push(d);
        v
    }
}


/// Whether `pat` occurs in `s` starting at index `i`.
pub open spec fn occurs_at(s: Seq<u8>, pat: Seq<u8>, i: int) -> bool {
    0 <= i && i + pat.len() <= s.len() && s.subrange(i, i + pat.len()) == pat
}

/// The first index at or after `from` where the non-empty pattern `pat`
/// occurs in `s`, if there is one.
pub open spec fn first_match(s: Seq<u8>, pat: Seq<u8>, from: int) -> Option<int>
    decreases s.len() - from,
{
    if from < 0 || pat.len() == 0 || from + pat.len() > s.len() {
        None
    } else if s.subrange(from, from + pat.len()) == pat {
        Some(from)
    } else {
        first_match(s, pat, from + 1)
    }
}

/// A match found by `first_match` is a real occurrence, at or after `from`,
/// and no occurrence lies between `from` and it.
pub proof fn lemma_first_match(s: Seq<u8>, pat: Seq<u8>, from: int)
    requires
        0 <= from,
    ensures
        first_match(s, pat, from) matches Some(i) ==> {
            &&& from <= i
            &&& occurs_at(s, pat, i)
            &&& pat.len() > 0
            &&& forall|j: int| from <= j < i ==> !occurs_at(s, pat, j)
        },
        first_match(s, pat, from) is None ==> (forall|j: int|
            from <= j && pat.len() > 0 ==> !occurs_at(s, pat, j)),
    decreases s.len() - from,
{
    if from < 0 || pat.len() == 0 || from + pat.len() > s.len() {
    } else if s.subrange(from, from + pat.len()) == pat {
    } else {
        lemma_first_match(s, pat, from + 1);
    }
}

/// The pieces of `s` from index `pos` on, cut at each non-overlapping
/// occurrence of `pat`, searching left to right (the pieces of `str::split`).
pub open spec fn split_from(s: Seq<u8>, pat: Seq<u8>, pos: int) -> Seq<Seq<u8>>
    decreases s.len() - pos,
{
    if pos < 0 || pos > s.len() {
        seq![]
    } else {
        match first_match(s, pat, pos) {
            Some(i) => {
                proof {
                    lemma_first_match(s, pat, pos);
                }
                seq![s.subrange(pos, i)] + split_from(s, pat, i + pat.len())
            },
            None => seq![s.subrange(pos, s.len() as int)],
        }
    }
}

/// The pieces of `s` cut at each occurrence of `pat`.
pub open spec fn split_on(s: Seq<u8>, pat: Seq<u8>) -> Seq<Seq<u8>> {
    split_from(s, pat, 0)
}

/// Whether `pat` occurs in `s` at `i` (exec form of `occurs_at`).
pub fn matches_at(s: &[u8], pat: &[u8], i: usize) -> (r: bool)
    ensures
        r == occurs_at(s@, pat@, i as int),
{
    if pat.len() > s.len() || i > s.len() - pat.len() {
        return false;
    }
    let mut k: usize = 0;
    while k < pat.len()
        invariant
            i + pat.len() <= s.len(),
            k <= pat.len(),
            forall|j: int| 0 <= j < k ==> s@[i + j] == pat@[j],
        decreases pat.len() - k,
    {
        if s[i + k] != pat[k] {
            assert(s@.subrange(i as int, i + pat.len())[k as int] != pat@[k as int]);
            return false;
        }
        k = k + 1;
    }
    assert(s@.subrange(i as int, i + pat.len()) =~= pat@);
    true
}

/// Whether `s` begins with `pat`.
pub fn starts_with(s: &[u8], pat: &[u8]) -> (r: bool)
    ensures
        r == (pat@.len() <= s@.len() && s@.subrange(0, pat@.len() as int) == pat@),
{
    matches_at(s, pat, 0)
}

/// Whether `s` ends with `pat`.
pub fn ends_with(s: &[u8], pat: &[u8]) -> (r: bool)
    ensures
        r == (pat@.len() <= s@.len() && s@.subrange(s@.len() - pat@.len(), s@.len() as int)
            == pat@),
{
    if pat.len() > s.len() {
        false
    } else {
        matches_at(s, pat, s.len() - pat.len())
    }
}

/// The first occurrence of `pat` in `s` at or after `from`.
pub fn find(s: &[u8], pat: &[u8], from: usize) -> (r: Option<usize>)
    ensures
        r matches Some(i) ==> first_match(s@, pat@, from as int) == Some(i as int),
        r is None ==> first_match(s@, pat@, from as int) is None,
{
    if pat.len() == 0 || pat.len() > s.len() {
        return None;
    }
    let n = s.len();
    let last = n - pat.len();
    let mut i = from;
    while i <= last
        invariant
            pat@.len() > 0,
            last == s@.len() - pat@.len(),
            last < n,
            n == s@.len(),
            from <= i,
            first_match(s@, pat@, from as int) == first_match(s@, pat@, i as int),
        decreases last + 1 - i,
    {
        if matches_at(s, pat, i) {
            return Some(i);
        }
        i = i + 1;
    }
    None
}

/// A copy of `s[lo..hi]`.
pub fn copy_range(s: &[u8], lo: usize, hi: usize) -> (r: Vec<u8>)
    requires
        lo <= hi <= s@.len(),
    ensures
        r@ == s@.subrange(lo as int, hi as int),
{
    let mut r: Vec<u8> = Vec::new();
    let mut i = lo;
    while i < hi
        invariant
            lo <= i <= hi <= s@.len(),
            r@ == s@.subrange(lo as int, i as int),
        decreases hi - i,
    {
        r.push(s[i]);
        i = i + 1;
        assert(r@ =~= s@.subrange(lo as int, i as int));
    }
    r
}

/// Appends `t` to `v`.
pub fn append_bytes(v: &mut Vec<u8>, t: &[u8])
    ensures
        final(v)@ == old(v)@ + t@,
{
    let mut i: usize = 0;
    while i < t.len()
        invariant
            i <= t@.len(),
            v@ == old(v)@ + t@.subrange(0, i as int),
        decreases t.len() - i,
    {
        v.push(t[i]);
        i = i + 1;
        assert(v@ =~= old(v)@ + t@.subrange(0, i as int));
    }
    assert(t@.subrange(0, t@.len() as int) =~= t@);
}

/// `s` cut at each occurrence of the non-empty pattern `pat`, as `str::split` does.
pub fn split_bytes(s: &[u8], pat: &[u8]) -> (r: Vec<Vec<u8>>)
    requires
        pat@.len() > 0,
    ensures
        r@.len() == split_on(s@, pat@).len(),
        forall|k: int| 0 <= k < r@.len() ==> #[trigger] r@[k]@ == split_on(s@, pat@)[k],
{
    let mut pieces: Vec<Vec<u8>> = Vec::new();
    let mut pos: usize = 0;
    let n = s.len();
    loop
        invariant
            n == s@.len(),
            pat@.len() > 0,
            pos <= s@.len(),
            pieces@.len() + split_from(s@, pat@, pos as int).len() == split_on(s@, pat@).len(),
            forall|k: int| 0 <= k < pieces@.len() ==> #[trigger] pieces@[k]@ == split_on(s@, pat@)[k],
            forall|k: int| 0 <= k < split_from(s@, pat@, pos as int).len() ==>
                #[trigger] split_from(s@, pat@, pos as int)[k]
                == split_on(s@, pat@)[pieces@.len() + k],
        decreases s@.len() - pos,
    {
        match find(s, pat, pos) {
            Some(i) => {
                proof {
                    lemma_first_match(s@, pat@, pos as int);
                }
                assert(i + pat@.len() <= s@.len());
                let piece = copy_range(s, pos, i);
                assert(split_from(s@, pat@, pos as int)[0] == split_on(s@, pat@)[pieces@.len() as int]);
                let ghost rest = split_from(s@, pat@, i + pat@.len());
                assert(split_from(s@, pat@, pos as int) == seq![s@.subrange(pos as int, i as int)]
                    + rest);
                assert forall|k: int| 0 <= k < rest.len() implies #[trigger] rest[k]
                    == split_on(s@, pat@)[pieces@.len() + 1 + k] by {
                    assert(split_from(s@, pat@, pos as int)[k + 1] == rest[k]);
                }
                pieces.push(piece);
                assert(pieces@[pieces@.len() - 1]@ == split_on(s@, pat@)[pieces@.len() - 1]);
                pos = i + pat.len();
            },
            None => {
                let piece = copy_range(s, pos, s.len());
                assert(split_from(s@, pat@, pos as int) == seq![s@.subrange(pos as int, s@.len() as int)]);
                assert(split_from(s@, pat@, pos as int)[0] == split_on(s@, pat@)[pieces@.len() as int]);
                pieces.push(piece);
                return pieces;
            },
        }
    }
}

} // verus!
