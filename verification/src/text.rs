use vstd::prelude::*;

verus! {

/// The Unicode `White_Space` property, which is what `char::is_whitespace`
/// and therefore `str::trim` and `str::split_whitespace` go by.
pub open spec fn is_ws(c: char) -> bool {
    ||| ('\u{9}' <= c && c <= '\u{d}')
    ||| c == ' '
    ||| c == '\u{85}'
    ||| c == '\u{a0}'
    ||| c == '\u{1680}'
    ||| ('\u{2000}' <= c && c <= '\u{200a}')
    ||| c == '\u{2028}'
    ||| c == '\u{2029}'
    ||| c == '\u{202f}'
    ||| c == '\u{205f}'
    ||| c == '\u{3000}'
}

/// Whether `c` is white space in the sense of Unicode's `White_Space` property.
pub fn is_whitespace(c: char) -> (b: bool)
    ensures
        b == is_ws(c),
{
    ('\u{9}' <= c && c <= '\u{d}') || c == ' ' || c == '\u{85}' || c == '\u{a0}'
        || c == '\u{1680}' || ('\u{2000}' <= c && c <= '\u{200a}') || c == '\u{2028}'
        || c == '\u{2029}' || c == '\u{202f}' || c == '\u{205f}' || c == '\u{3000}'
}

/// The characters of `s`, in order.
pub fn chars_of(s: &str) -> (v: Vec<char>)
    ensures
        v@ == s@,
{
    let mut v: Vec<char> = Vec::new();
    for c in it: s.chars()
        invariant
            v@ == it.seq().take(it.index() as int),
            it.seq() == s@,
    {
        v.push(c);
    }
    v
}

/// Appends `c` to `s` (std's `String::push`).
#[verifier::external_body]
fn push_char(s: &mut String, c: char)
    ensures
        final(s)@ == old(s)@.push(c),
{
    s.push(c)
}

/// A `String` holding exactly the characters of `v`.
pub fn string_of(v: &Vec<char>) -> (s: String)
    ensures
        s@ == v@,
{
    let mut s = String::new();
    let mut i: usize = 0;
    while i < v.len()
        invariant
            i <= v.len(),
            s@ == v@.take(i as int),
        decreases v.len() - i,
    {
        push_char(&mut s, v[i]);
        assert(v@.take(i + 1) =~= v@.take(i as int).push(v@[i as int]));
        i += 1;
    }
    assert(v@.take(v.len() as int) =~= v@);
    s
}


/// The characters of `s` from `lo` up to (not including) `hi`.
pub fn slice_of(s: &Vec<char>, lo: usize, hi: usize) -> (v: Vec<char>)
    requires
        lo <= hi <= s.len(),
    ensures
        v@ == s@.subrange(lo as int, hi as int),
{
    let mut v: Vec<char> = Vec::new();
    let mut i: usize = lo;
    while i < hi
        invariant
            lo <= i <= hi <= s.len(),
            v@ == s@.subrange(lo as int, i as int),
        decreases hi - i,
    {
        v.push(s[i]);
        assert(s@.subrange(lo as int, i + 1) =~= s@.subrange(lo as int, i as int).push(s@[i as int]));
        i += 1;
    }
    v
}

/// Whether two character sequences are equal.
pub fn same_chars(a: &Vec<char>, b: &Vec<char>) -> (r: bool)
    ensures
        r == (a@ == b@),
{
    if a.len() != b.len() {
        return false;
    }
    let mut i: usize = 0;
    while i < a.len()
        invariant
            a.len() == b.len(),
            i <= a.len(),
            forall|j: int| 0 <= j < i ==> a@[j] == b@[j],
        decreases a.len() - i,
    {
        if a[i] != b[i] {
            return false;
        }
        i += 1;
    }
    assert(a@ =~= b@);
    true
}

/// `s` begins with `p` (as `str::starts_with` with a string pattern).
pub open spec fn has_prefix(s: Seq<char>, p: Seq<char>) -> bool {
    p.len() <= s.len() && s.subrange(0, p.len() as int) == p
}

/// Whether `s` begins with `p`.
pub fn starts_with(s: &Vec<char>, p: &Vec<char>) -> (r: bool)
    ensures
        r == has_prefix(s@, p@),
{
    if p.len() > s.len() {
        return false;
    }
    let mut i: usize = 0;
    while i < p.len()
        invariant
            p.len() <= s.len(),
            i <= p.len(),
            forall|j: int| 0 <= j < i ==> s@[j] == p@[j],
        decreases p.len() - i,
    {
        if s[i] != p[i] {
            assert(s@.subrange(0, p.len() as int)[i as int] != p@[i as int]);
            return false;
        }
        i += 1;
    }
    assert(s@.subrange(0, p.len() as int) =~= p@);
    true
}

/// `s` without its leading white space (as `str::trim_start`).
pub open spec fn trim_start(s: Seq<char>) -> Seq<char>
    decreases s.len(),
{
    if s.len() > 0 && is_ws(s[0]) {
        trim_start(s.drop_first())
    } else {
        s
    }
}

/// `s` without its trailing white space (as `str::trim_end`).
pub open spec fn trim_end(s: Seq<char>) -> Seq<char>
    decreases s.len(),
{
    if s.len() > 0 && is_ws(s.last()) {
        trim_end(s.drop_last())
    } else {
        s
    }
}

/// `s` without leading and trailing white space (as `str::trim`).
pub open spec fn trim_spec(s: Seq<char>) -> Seq<char> {
    trim_end(trim_start(s))
}

proof fn lemma_trim_start_skip(s: Seq<char>, i: int)
    requires
        0 <= i < s.len(),
        is_ws(s[i]),
    ensures
        trim_start(s.skip(i)) == trim_start(s.skip(i + 1)),
{
    assert(s.skip(i).drop_first() =~= s.skip(i + 1));
}

proof fn lemma_trim_end_take(s: Seq<char>, i: int)
    requires
        0 < i <= s.len(),
        is_ws(s[i - 1]),
    ensures
        trim_end(s.take(i)) == trim_end(s.take(i - 1)),
{
    assert(s.take(i).drop_last() =~= s.take(i - 1));
}

/// `s` with leading and trailing white space removed.
pub fn trim(s: &Vec<char>) -> (t: Vec<char>)
    ensures
        t@ == trim_spec(s@),
{
    let mut lo: usize = 0;
    assert(s@.skip(0) =~= s@);
    while lo < s.len() && is_whitespace(s[lo])
        invariant
            lo <= s.len(),
            trim_start(s@) == trim_start(s@.skip(lo as int)),
        decreases s.len() - lo,
    {
        proof {
            lemma_trim_start_skip(s@, lo as int);
        }
        lo += 1;
    }
    let ghost t0 = s@.skip(lo as int);
    assert(trim_start(s@) == t0);
    let mut hi: usize = s.len();
    assert(t0.take(t0.len() as int) =~= t0);
    while hi > lo && is_whitespace(s[hi - 1])
        invariant
            lo <= hi <= s.len(),
            t0 == s@.skip(lo as int),
            trim_end(t0) == trim_end(t0.take(hi - lo)),
        decreases hi,
    {
        proof {
            lemma_trim_end_take(t0, hi - lo);
        }
        hi -= 1;
    }
    assert(t0.take(hi - lo) =~= s@.subrange(lo as int, hi as int));
    slice_of(s, lo, hi)
}


/// The index of the first `c` in `s` (as `str::find` with a `char`, counted
/// in characters).
pub open spec fn find_spec(s: Seq<char>, c: char) -> Option<int>
    decreases s.len(),
{
    if s.len() == 0 {
        None
    } else if s[0] == c {
        Some(0)
    } else {
        match find_spec(s.drop_first(), c) {
            Some(i) => Some(i + 1),
            None => None,
        }
    }
}

/// `find_spec` gives the first occurrence, or `None` exactly when there is none.
pub proof fn lemma_find_spec(s: Seq<char>, c: char)
    ensures
        find_spec(s, c) matches Some(i) ==> 0 <= i < s.len() && s[i] == c && forall|j: int|
            0 <= j < i ==> s[j] != c,
        find_spec(s, c) is None ==> forall|j: int| 0 <= j < s.len() ==> s[j] != c,
    decreases s.len(),
{
    if s.len() > 0 && s[0] != c {
        lemma_find_spec(s.drop_first(), c);
        if find_spec(s, c) is None {
            assert forall|j: int| 0 <= j < s.len() implies s[j] != c by {
                if j > 0 {
                    assert(s[j] == s.drop_first()[j - 1]);
                }
            }
        } else {
            let i = find_spec(s, c)->0;
            assert forall|j: int| 0 <= j < i implies s[j] != c by {
                if j > 0 {
                    assert(s[j] == s.drop_first()[j - 1]);
                }
            }
        }
    }
}

/// The first index of `c` in `s`, if any.
pub fn find_char(s: &Vec<char>, c: char) -> (r: Option<usize>)
    ensures
        r matches Some(i) ==> find_spec(s@, c) == Some(i as int),
        r is None ==> find_spec(s@, c) is None,
{
    proof {
        lemma_find_spec(s@, c);
    }
    let mut i: usize = 0;
    while i < s.len()
        invariant
            i <= s.len(),
            forall|j: int| 0 <= j < i ==> s@[j] != c,
        decreases s.len() - i,
    {
        if s[i] == c {
            proof {
                lemma_find_spec(s@, c);
                if let Some(k) = find_spec(s@, c) {
                    if k < i {
                        assert(s@[k] != c);
                    }
                    assert(k == i);
                } else {
                    assert(s@[i as int] == c);
                }
            }
            return Some(i);
        }
        i += 1;
    }
    proof {
        lemma_find_spec(s@, c);
        if let Some(k) = find_spec(s@, c) {
            assert(s@[k] == c);
        }
    }
    None
}

/// The text before the first `c` in `s`, or all of `s` when there is none:
/// the first item of `str::split` with that `char`.
pub open spec fn upto_spec(s: Seq<char>, c: char) -> Seq<char> {
    match find_spec(s, c) {
        Some(i) => s.take(i),
        None => s,
    }
}

/// The second item of `str::split` with the pattern `c`: the text between the
/// first and the second `c`, or after the first `c` up to the end when there
/// is only one; `None` when `s` holds no `c`.
pub open spec fn second_piece_spec(s: Seq<char>, c: char) -> Option<Seq<char>> {
    match find_spec(s, c) {
        Some(i) => Some(upto_spec(s.skip(i + 1), c)),
        None => None,
    }
}

/// The text of `s` before the first `c` (all of `s` when there is none).
pub fn upto(s: &Vec<char>, c: char) -> (r: Vec<char>)
    ensures
        r@ == upto_spec(s@, c),
{
    match find_char(s, c) {
        Some(i) => {
            proof {
                lemma_find_spec(s@, c);
            }
            slice_of(s, 0, i)
        },
        None => slice_of(s, 0, s.len()),
    }
}

/// The second item of `s` split at `c`, if `s` holds a `c`.
pub fn second_piece(s: &Vec<char>, c: char) -> (r: Option<Vec<char>>)
    ensures
        r matches Some(v) ==> second_piece_spec(s@, c) == Some(v@),
        r is None ==> second_piece_spec(s@, c) is None,
{
    match find_char(s, c) {
        Some(i) => {
            proof {
                lemma_find_spec(s@, c);
                assert(i < s.len());
            }
            let rest = slice_of(s, i + 1, s.len());
            assert(rest@ =~= s@.skip(i + 1));
            Some(upto(&rest, c))
        },
        None => None,
    }
}

/// The state of a left-to-right scan that cuts a text into white-space
/// separated words: the words finished so far and the word being read.
pub open spec fn words_scan(s: Seq<char>) -> (Seq<Seq<char>>, Seq<char>)
    decreases s.len(),
{
    if s.len() == 0 {
        (Seq::empty(), Seq::empty())
    } else {
        let (done, cur) = words_scan(s.drop_last());
        if is_ws(s.last()) {
            if cur.len() > 0 {
                (done.push(cur), Seq::empty())
            } else {
                (done, cur)
            }
        } else {
            (done, cur.push(s.last()))
        }
    }
}

/// The words of `s`: its maximal runs of characters that are not white space,
/// in order (as `str::split_whitespace`).
pub open spec fn words_spec(s: Seq<char>) -> Seq<Seq<char>> {
    let (done, cur) = words_scan(s);
    if cur.len() > 0 {
        done.push(cur)
    } else {
        done
    }
}

/// The white-space separated words of `s`.
pub fn split_whitespace(s: &Vec<char>) -> (r: Vec<Vec<char>>)
    ensures
        r@.map_values(|w: Vec<char>| w@) == words_spec(s@),
{
    let mut done: Vec<Vec<char>> = Vec::new();
    let mut cur: Vec<char> = Vec::new();
    let mut i: usize = 0;
    while i < s.len()
        invariant
            i <= s.len(),
            (done@.map_values(|w: Vec<char>| w@), cur@) == words_scan(s@.take(i as int)),
        decreases s.len() - i,
    {
        let ghost pre = s@.take(i as int);
        assert(s@.take(i + 1).drop_last() =~= pre);
        let c = s[i];
        if is_whitespace(c) {
            if cur.len() > 0 {
                let w = cur;
                cur = Vec::new();
                done.push(w);
                assert(done@.map_values(|w: Vec<char>| w@) =~= words_scan(pre).0.push(w@));
            }
        } else {
            cur.push(c);
        }
        i += 1;
    }
    assert(s@.take(s.len() as int) =~= s@);
    if cur.len() > 0 {
        let ghost d = done@.map_values(|w: Vec<char>| w@);
        let w = cur;
        done.push(w);
        assert(done@.map_values(|w: Vec<char>| w@) =~= d.push(w@));
    }
    done
}

/// The words of `ws` joined with single spaces (as `[&str]::join(" ")`).
pub open spec fn join_spec(ws: Seq<Seq<char>>) -> Seq<char>
    decreases ws.len(),
{
    if ws.len() == 0 {
        Seq::empty()
    } else if ws.len() == 1 {
        ws[0]
    } else {
        join_spec(ws.drop_last()) + seq![' '] + ws.last()
    }
}

/// `ws[from..]` joined with single spaces.
pub fn join_from(ws: &Vec<Vec<char>>, from: usize) -> (r: Vec<char>)
    requires
        from <= ws.len(),
    ensures
        r@ == join_spec(ws@.map_values(|w: Vec<char>| w@).skip(from as int)),
{
    let ghost all = ws@.map_values(|w: Vec<char>| w@).skip(from as int);
    let mut r: Vec<char> = Vec::new();
    let mut i: usize = from;
    assert(all.take(0) =~= Seq::<Seq<char>>::empty());
    while i < ws.len()
        invariant
            from <= i <= ws.len(),
            all == ws@.map_values(|w: Vec<char>| w@).skip(from as int),
            r@ == join_spec(all.take(i - from)),
        decreases ws.len() - i,
    {
        let ghost before = r@;
        if i > from {
            r.push(' ');
        }
        let w = &ws[i];
        let mut k: usize = 0;
        let ghost base = r@;
        while k < w.len()
            invariant
                k <= w.len(),
                r@ == base + w@.take(k as int),
            decreases w.len() - k,
        {
            r.push(w[k]);
            assert(w@.take(k + 1) =~= w@.take(k as int).push(w@[k as int]));
            k += 1;
        }
        assert(w@.take(w.len() as int) =~= w@);
        assert(all.take(i + 1 - from).drop_last() =~= all.take(i - from));
        assert(all.take(i + 1 - from).last() == w@);
        if i > from {
            assert(r@ =~= before + seq![' '] + w@);
        } else {
            assert(r@ =~= w@);
        }
        i += 1;
    }
    assert(all.take(ws.len() - from) =~= all);
    r
}


/// The index of the first occurrence of `p` in `s` (as `str::find` with a
/// string pattern, counted in characters); an empty `p` occurs at 0.
pub open spec fn find_sub_spec(s: Seq<char>, p: Seq<char>) -> Option<int>
    decreases s.len(),
{
    if has_prefix(s, p) {
        Some(0)
    } else if s.len() == 0 {
        None
    } else {
        match find_sub_spec(s.drop_first(), p) {
            Some(i) => Some(i + 1),
            None => None,
        }
    }
}

/// `p` occurs in `s` at index `i`.
pub open spec fn occurs_at(s: Seq<char>, p: Seq<char>, i: int) -> bool {
    0 <= i && i + p.len() <= s.len() && s.subrange(i, i + p.len()) == p
}

/// `find_sub_spec` gives the first occurrence, or `None` when there is none.
pub proof fn lemma_find_sub_spec(s: Seq<char>, p: Seq<char>)
    ensures
        find_sub_spec(s, p) matches Some(i) ==> occurs_at(s, p, i) && forall|j: int|
            0 <= j < i ==> !occurs_at(s, p, j),
        find_sub_spec(s, p) is None ==> forall|j: int| 0 <= j <= s.len() ==> !occurs_at(s, p, j),
    decreases s.len(),
{
    if !has_prefix(s, p) && s.len() > 0 {
        lemma_find_sub_spec(s.drop_first(), p);
        let t = s.drop_first();
        assert forall|j: int| 1 <= j <= s.len() implies occurs_at(s, p, j) == occurs_at(t, p, j - 1) by {
            if j + p.len() <= s.len() {
                assert(s.subrange(j, j + p.len()) =~= t.subrange(j - 1, j - 1 + p.len()));
            }
        }
        assert(!occurs_at(s, p, 0));
    }
}

/// Whether `p` occurs in `s` starting at `i`.
fn matches_at(s: &Vec<char>, p: &Vec<char>, i: usize) -> (r: bool)
    requires
        i <= s.len(),
    ensures
        r == occurs_at(s@, p@, i as int),
{
    if p.len() > s.len() - i {
        return false;
    }
    let mut k: usize = 0;
    while k < p.len()
        invariant
            i + p.len() <= s.len(),
            k <= p.len(),
            forall|j: int| 0 <= j < k ==> s@[i + j] == p@[j],
        decreases p.len() - k,
    {
        if s[i + k] != p[k] {
            assert(s@.subrange(i as int, i + p.len())[k as int] != p@[k as int]);
            return false;
        }
        k += 1;
    }
    assert(s@.subrange(i as int, i + p.len()) =~= p@);
    true
}

/// The index of the first occurrence of `p` in `s`, if any.
pub fn find_sub(s: &Vec<char>, p: &Vec<char>) -> (r: Option<usize>)
    ensures
        r matches Some(i) ==> find_sub_spec(s@, p@) == Some(i as int),
        r is None ==> find_sub_spec(s@, p@) is None,
{
    proof {
        lemma_find_sub_spec(s@, p@);
    }
    let mut i: usize = 0;
    while i < s.len()
        invariant
            i <= s.len(),
            forall|j: int| 0 <= j < i ==> !occurs_at(s@, p@, j),
            find_sub_spec(s@, p@) matches Some(k) ==> occurs_at(s@, p@, k) && forall|j: int|
                0 <= j < k ==> !occurs_at(s@, p@, j),
            find_sub_spec(s@, p@) is None ==> forall|j: int|
                0 <= j <= s.len() ==> !occurs_at(s@, p@, j),
        decreases s.len() - i,
    {
        if matches_at(s, p, i) {
            proof {
                if let Some(k) = find_sub_spec(s@, p@) {
                    if k > i {
                        assert(!occurs_at(s@, p@, i as int));
                    }
                }
            }
            return Some(i);
        }
        i += 1;
    }
    if matches_at(s, p, i) {
        proof {
            if let Some(k) = find_sub_spec(s@, p@) {
                if k > i {
                    assert(!occurs_at(s@, p@, i as int));
                }
            }
        }
        return Some(i);
    }
    proof {
        if let Some(k) = find_sub_spec(s@, p@) {
            assert(occurs_at(s@, p@, k));
            assert(k <= s.len());
        }
    }
    None
}


proof fn lemma_trim_start_shape(s: Seq<char>)
    ensures
        trim_start(s).len() > 0 ==> !is_ws(trim_start(s)[0]),
        exists|k: int| 0 <= k <= s.len() && trim_start(s) == #[trigger] s.skip(k),
    decreases s.len(),
{
    if s.len() > 0 && is_ws(s[0]) {
        lemma_trim_start_shape(s.drop_first());
        let k = choose|k: int| 0 <= k <= s.drop_first().len() && trim_start(s.drop_first()) == #[trigger] s.drop_first().skip(k);
        assert(s.drop_first().skip(k) =~= s.skip(k + 1));
    } else {
        assert(s.skip(0) =~= s);
    }
}

proof fn lemma_trim_end_shape(s: Seq<char>)
    ensures
        trim_end(s).len() > 0 ==> !is_ws(trim_end(s).last()),
        trim_end(s) == s.take(trim_end(s).len() as int),
        trim_end(s).len() <= s.len(),
    decreases s.len(),
{
    if s.len() > 0 && is_ws(s.last()) {
        lemma_trim_end_shape(s.drop_last());
        let t = trim_end(s.drop_last());
        assert(s.drop_last().take(t.len() as int) =~= s.take(t.len() as int));
    } else {
        assert(s.take(s.len() as int) =~= s);
    }
}

/// A trimmed text neither begins nor ends with white space, and trimming it
/// again changes nothing.
pub proof fn law_trim(s: Seq<char>)
    ensures
        trim_spec(s).len() > 0 ==> !is_ws(trim_spec(s)[0]) && !is_ws(trim_spec(s).last()),
        trim_spec(trim_spec(s)) == trim_spec(s),
{
    let a = trim_start(s);
    lemma_trim_start_shape(s);
    lemma_trim_end_shape(a);
    let t = trim_end(a);
    if t.len() > 0 {
        assert(t[0] == a[0]);
    }
    lemma_trim_end_shape(t);
    if t.len() > 0 {
        assert(trim_start(t) == t);
    } else {
        assert(trim_start(t) == t);
    }
}

/// No word holds white space, and no word is empty.
spec fn words_ok(ws: Seq<Seq<char>>) -> bool {
    forall|i: int|
        0 <= i < ws.len() ==> #[trigger] ws[i].len() > 0 && forall|k: int|
            0 <= k < ws[i].len() ==> !is_ws(ws[i][k])
}

proof fn lemma_words_scan_ok(s: Seq<char>)
    ensures
        words_ok(words_scan(s).0),
        forall|k: int| 0 <= k < words_scan(s).1.len() ==> !is_ws(#[trigger] words_scan(s).1[k]),
    decreases s.len(),
{
    if s.len() > 0 {
        lemma_words_scan_ok(s.drop_last());
        let (done, cur) = words_scan(s.drop_last());
        if !is_ws(s.last()) {
            assert forall|k: int| 0 <= k < cur.push(s.last()).len() implies !is_ws(
                #[trigger] cur.push(s.last())[k],
            ) by {
                if k < cur.len() {
                    assert(cur.push(s.last())[k] == cur[k]);
                }
            }
        } else if cur.len() > 0 {
            assert forall|i: int| 0 <= i < done.push(cur).len() implies #[trigger] done.push(cur)[i].len()
                > 0 && forall|k: int| 0 <= k < done.push(cur)[i].len() ==> !is_ws(done.push(cur)[i][k]) by {
                if i < done.len() {
                    assert(done.push(cur)[i] == done[i]);
                }
            }
        }
    }
}

/// The words of a text are never empty and hold no white space.
pub proof fn law_words(s: Seq<char>)
    ensures
        forall|i: int|
            0 <= i < words_spec(s).len() ==> #[trigger] words_spec(s)[i].len() > 0 && forall|k: int|
                0 <= k < words_spec(s)[i].len() ==> !is_ws(words_spec(s)[i][k]),
{
    lemma_words_scan_ok(s);
    let (done, cur) = words_scan(s);
    if cur.len() > 0 {
        assert forall|i: int| 0 <= i < done.push(cur).len() implies #[trigger] done.push(cur)[i].len() > 0
            && forall|k: int| 0 <= k < done.push(cur)[i].len() ==> !is_ws(done.push(cur)[i][k]) by {
            if i < done.len() {
                assert(done.push(cur)[i] == done[i]);
            }
        }
    }
}

} // verus!
