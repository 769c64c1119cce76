//! Character-sequence operations used by the LDF parser, each with its
//! meaning as a function on `Seq<char>`.

use vstd::prelude::*;

verus! {

broadcast use vstd::string::group_string_axioms;

/// The characters of `s`.
pub fn to_chars(s: &str) -> (r: Vec<char>)
    ensures
        r@ == s@,
{
    let mut v: Vec<char> = Vec::new();
    for c in it: s.chars()
        invariant
            v@ == it.seq().take(it.index() as int),
            it.seq() == s@,
    {
        v.push(c);
        proof {
            assert(v@ =~= it.seq().take(it.index() + 1));
        }
    }
    v
}

/// A string holding exactly `cs`, through `String::from_iter`.
#[verifier::external_body]
pub(crate) fn string_of(cs: &[char]) -> (r: String)
    ensures
        r@ == cs@,
{
    String::from_iter(cs.iter())
}

/// Unicode `White_Space`, as `char::is_whitespace` decides it.
pub open spec fn is_ws(c: char) -> bool {
    let v = c as u32;
    (0x09 <= v && v <= 0x0D) || v == 0x20 || v == 0x85 || v == 0xA0 || v == 0x1680 || (0x2000
        <= v && v <= 0x200A) || v == 0x2028 || v == 0x2029 || v == 0x202F || v == 0x205F || v
        == 0x3000
}

/// Whether `c` is white space.
pub fn is_whitespace(c: char) -> (r: bool)
    ensures
        r == is_ws(c),
{
    let v = c as u32;
    (0x09 <= v && v <= 0x0D) || v == 0x20 || v == 0x85 || v == 0xA0 || v == 0x1680 || (0x2000
        <= v && v <= 0x200A) || v == 0x2028 || v == 0x2029 || v == 0x202F || v == 0x205F || v
        == 0x3000
}

/// `s` without its leading white space.
pub open spec fn trim_start(s: Seq<char>) -> Seq<char>
    decreases s.len(),
{
    if s.len() > 0 && is_ws(s[0]) {
        trim_start(s.drop_first())
    } else {
        s
    }
}

/// `s` without its trailing white space.
pub open spec fn trim_end(s: Seq<char>) -> Seq<char>
    decreases s.len(),
{
    if s.len() > 0 && is_ws(s.last()) {
        trim_end(s.drop_last())
    } else {
        s
    }
}

/// `s` without leading or trailing white space.
pub open spec fn trim(s: Seq<char>) -> Seq<char> {
    trim_end(trim_start(s))
}

/// `s` without every trailing `c`.
pub open spec fn trim_end_char(s: Seq<char>, c: char) -> Seq<char>
    decreases s.len(),
{
    if s.len() > 0 && s.last() == c {
        trim_end_char(s.drop_last(), c)
    } else {
        s
    }
}

/// Whether `s` begins with `p`.
pub open spec fn starts_with(s: Seq<char>, p: Seq<char>) -> bool {
    p.len() <= s.len() && s.take(p.len() as int) == p
}

/// Whether `s` ends with `p`.
pub open spec fn ends_with(s: Seq<char>, p: Seq<char>) -> bool {
    p.len() <= s.len() && s.skip(s.len() - p.len()) == p
}

/// `s` without every leading repetition of the non-empty `p`.
pub open spec fn trim_start_str(s: Seq<char>, p: Seq<char>) -> Seq<char>
    decreases s.len(),
{
    if p.len() > 0 && starts_with(s, p) {
        trim_start_str(s.skip(p.len() as int), p)
    } else {
        s
    }
}

/// The position of the first `c` in `s`.
pub open spec fn find_char(s: Seq<char>, c: char) -> Option<int>
    decreases s.len(),
{
    if s.len() == 0 {
        None
    } else {
        match find_char(s.drop_last(), c) {
            Some(i) => Some(i),
            None => if s.last() == c {
                Some(s.len() - 1)
            } else {
                None
            },
        }
    }
}

/// The position of the first occurrence of the two-character `p` in `s`.
pub open spec fn find_pair(s: Seq<char>, a: char, b: char) -> Option<int>
    decreases s.len(),
{
    if s.len() < 2 {
        None
    } else {
        match find_pair(s.drop_last(), a, b) {
            Some(i) => Some(i),
            None => if s[s.len() - 2] == a && s.last() == b {
                Some(s.len() - 2)
            } else {
                None
            },
        }
    }
}

/// The pieces of `s` between the separators `c` (one more piece than
/// there are separators).
pub open spec fn split_char(s: Seq<char>, c: char) -> Seq<Seq<char>>
    decreases s.len(),
{
    match find_char(s, c) {
        None => seq![s],
        Some(i) => {
            proof {
                lemma_find_char_range(s, c);
            }
            seq![s.take(i)] + split_char(s.skip(i + 1), c)
        },
    }
}

/// At most `n` pieces of `s` split at the first `n - 1` separators `c`,
/// the last piece holding the rest of `s`.
pub open spec fn splitn_char(s: Seq<char>, n: nat, c: char) -> Seq<Seq<char>>
    decreases s.len(),
{
    if n <= 1 {
        seq![s]
    } else {
        match find_char(s, c) {
            None => seq![s],
            Some(i) => {
                proof {
                    lemma_find_char_range(s, c);
                }
                seq![s.take(i)] + splitn_char(s.skip(i + 1), (n - 1) as nat, c)
            },
        }
    }
}

/// Where `find_char` finds `c`: in range, at a `c`, with none before.
pub proof fn lemma_find_char_range(s: Seq<char>, c: char)
    ensures
        find_char(s, c) matches Some(i) ==> 0 <= i < s.len() && s[i] == c && forall|j: int|
            0 <= j < i ==> s[j] != c,
        find_char(s, c) is None ==> forall|j: int| 0 <= j < s.len() ==> s[j] != c,
    decreases s.len(),
{
    if s.len() > 0 {
        let t = s.drop_last();
        lemma_find_char_range(t, c);
        match find_char(t, c) {
            Some(i) => {
                assert(s[i] == t[i]);
                assert forall|j: int| 0 <= j < i implies s[j] != c by {
                    assert(s[j] == t[j]);
                }
            },
            None => {
                assert forall|j: int| 0 <= j < s.len() - 1 implies s[j] != c by {
                    assert(s[j] == t[j]);
                }
            },
        }
    }
}

/// The maximal runs of non-white-space characters of `s`.
pub open spec fn split_ws(s: Seq<char>) -> Seq<Seq<char>> {
    split_ws_acc(s, Seq::empty(), Seq::empty())
}

/// `split_ws`, scanning `s` with the words found so far and the word in
/// progress.
pub open spec fn split_ws_acc(s: Seq<char>, words: Seq<Seq<char>>, cur: Seq<char>) -> Seq<
    Seq<char>,
>
    decreases s.len(),
{
    if s.len() == 0 {
        if cur.len() > 0 {
            words.push(cur)
        } else {
            words
        }
    } else if is_ws(s[0]) {
        if cur.len() > 0 {
            split_ws_acc(s.drop_first(), words.push(cur), Seq::empty())
        } else {
            split_ws_acc(s.drop_first(), words, Seq::empty())
        }
    } else {
        split_ws_acc(s.drop_first(), words, cur.push(s[0]))
    }
}

/// ASCII lower case of a character.
pub open spec fn ascii_lower(c: char) -> char {
    if 'A' <= c && c <= 'Z' {
        ((c as u32) + 32) as char
    } else {
        c
    }
}

/// Whether `a` and `b` are equal ignoring ASCII case.
pub open spec fn eq_ignore_case(a: Seq<char>, b: Seq<char>) -> bool {
    a.len() == b.len() && forall|i: int| 0 <= i < a.len() ==> ascii_lower(a[i]) == ascii_lower(b[i])
}

proof fn lemma_trim_start_skip(s: Seq<char>, k: int)
    requires
        0 <= k <= s.len(),
        forall|j: int| 0 <= j < k ==> is_ws(s[j]),
    ensures
        trim_start(s) == trim_start(s.skip(k)),
    decreases k,
{
    if k > 0 {
        assert(s.drop_first().skip(k - 1) =~= s.skip(k));
        lemma_trim_start_skip(s.drop_first(), k - 1);
    } else {
        assert(s.skip(0) =~= s);
    }
}

proof fn lemma_trim_end_take(s: Seq<char>, k: int)
    requires
        0 <= k <= s.len(),
        forall|j: int| k <= j < s.len() ==> is_ws(s[j]),
    ensures
        trim_end(s) == trim_end(s.take(k)),
    decreases s.len() - k,
{
    if k < s.len() {
        assert(s.drop_last().take(k) =~= s.take(k));
        lemma_trim_end_take(s.drop_last(), k);
    } else {
        assert(s.take(k) =~= s);
    }
}

proof fn lemma_trim_end_char_take(s: Seq<char>, c: char, k: int)
    requires
        0 <= k <= s.len(),
        forall|j: int| k <= j < s.len() ==> s[j] == c,
    ensures
        trim_end_char(s, c) == trim_end_char(s.take(k), c),
    decreases s.len() - k,
{
    if k < s.len() {
        assert(s.drop_last().take(k) =~= s.take(k));
        lemma_trim_end_char_take(s.drop_last(), c, k);
    } else {
        assert(s.take(k) =~= s);
    }
}

/// `s[from..to]` as a new vector.
pub fn slice_of(s: &[char], from: usize, to: usize) -> (r: Vec<char>)
    requires
        from <= to <= s@.len(),
    ensures
        r@ == s@.subrange(from as int, to as int),
{
    let mut v: Vec<char> = Vec::new();
    let mut i = from;
    while i < to
        invariant
            from <= i <= to,
            to <= s@.len(),
            v@ == s@.subrange(from as int, i as int),
        decreases to - i,
    {
        v.push(s[i]);
        i = i + 1;
        proof {
            assert(v@ =~= s@.subrange(from as int, i as int));
        }
    }
    v
}

/// `s` without leading or trailing white space.
pub fn trim_chars(s: &[char]) -> (r: Vec<char>)
    ensures
        r@ == trim(s@),
{
    let mut a: usize = 0;
    while a < s.len() && is_whitespace(s[a])
        invariant
            a <= s@.len(),
            forall|j: int| 0 <= j < a ==> is_ws(s@[j]),
        decreases s.len() - a,
    {
        a = a + 1;
    }
    proof {
        lemma_trim_start_skip(s@, a as int);
        if a < s@.len() {
            assert(!is_ws(s@.skip(a as int)[0]));
        }
        assert(trim_start(s@.skip(a as int)) == s@.skip(a as int));
    }
    let mut b: usize = s.len();
    while b > a && is_whitespace(s[b - 1])
        invariant
            a <= b <= s@.len(),
            forall|j: int| b <= j < s@.len() ==> is_ws(s@[j]),
        decreases b,
    {
        b = b - 1;
    }
    proof {
        let t = s@.skip(a as int);
        let k = (b - a) as int;
        assert forall|j: int| k <= j < t.len() implies is_ws(t[j]) by {
            assert(t[j] == s@[a + j]);
        }
        lemma_trim_end_take(t, k);
        assert(t.take(k) =~= s@.subrange(a as int, b as int));
        if k > 0 {
            assert(!is_ws(t.take(k).last()));
        }
        assert(trim_end(t.take(k)) == t.take(k));
    }
    slice_of(s, a, b)
}

/// `s` without every trailing `c`.
pub fn trim_end_matches_char(s: &[char], c: char) -> (r: Vec<char>)
    ensures
        r@ == trim_end_char(s@, c),
{
    let mut b: usize = s.len();
    while b > 0 && s[b - 1] == c
        invariant
            b <= s@.len(),
            forall|j: int| b <= j < s@.len() ==> s@[j] == c,
        decreases b,
    {
        b = b - 1;
    }
    proof {
        lemma_trim_end_char_take(s@, c, b as int);
        assert(s@.take(b as int) =~= s@.subrange(0, b as int));
    }
    slice_of(s, 0, b)
}

/// Whether `s` begins with `p`.
pub fn has_prefix(s: &[char], p: &[char]) -> (r: bool)
    ensures
        r == starts_with(s@, p@),
{
    if p.len() > s.len() {
        return false;
    }
    let mut i: usize = 0;
    while i < p.len()
        invariant
            i <= p@.len(),
            p@.len() <= s@.len(),
            forall|j: int| 0 <= j < i ==> s@[j] == p@[j],
        decreases p.len() - i,
    {
        if s[i] != p[i] {
            proof {
                assert(s@.take(p@.len() as int)[i as int] != p@[i as int]);
            }
            return false;
        }
        i = i + 1;
    }
    proof {
        assert(s@.take(p@.len() as int) =~= p@);
    }
    true
}

/// Whether `s` ends with `p`.
pub fn has_suffix(s: &[char], p: &[char]) -> (r: bool)
    ensures
        r == ends_with(s@, p@),
{
    if p.len() > s.len() {
        return false;
    }
    let off = s.len() - p.len();
    let mut i: usize = 0;
    while i < p.len()
        invariant
            i <= p@.len(),
            off + p@.len() == s@.len(),
            s@.len() <= usize::MAX,
            forall|j: int| 0 <= j < i ==> s@[off + j] == p@[j],
        decreases p.len() - i,
    {
        if s[off + i] != p[i] {
            proof {
                assert(s@.skip(off as int)[i as int] != p@[i as int]);
            }
            return false;
        }
        i = i + 1;
    }
    proof {
        assert(s@.skip(off as int) =~= p@);
    }
    true
}

/// The position of the first `c` in `s`.
pub fn find(s: &[char], c: char) -> (r: Option<usize>)
    ensures
        match r {
            Some(i) => find_char(s@, c) == Some(i as int) && i < s@.len(),
            None => find_char(s@, c) is None,
        },
{
    let mut i: usize = 0;
    while i < s.len()
        invariant
            i <= s@.len(),
            find_char(s@.take(i as int), c) is None,
        decreases s.len() - i,
    {
        proof {
            assert(s@.take(i + 1).drop_last() =~= s@.take(i as int));
        }
        if s[i] == c {
            proof {
                lemma_find_char_extend(s@, c, i as int + 1);
            }
            return Some(i);
        }
        i = i + 1;
    }
    proof {
        assert(s@.take(s@.len() as int) =~= s@);
    }
    None
}

proof fn lemma_find_char_extend(s: Seq<char>, c: char, k: int)
    requires
        0 < k <= s.len(),
        find_char(s.take(k), c) is Some,
    ensures
        find_char(s, c) == find_char(s.take(k), c),
    decreases s.len() - k,
{
    if k < s.len() {
        assert(s.take(k + 1).drop_last() =~= s.take(k));
        lemma_find_char_extend(s, c, k + 1);
    } else {
        assert(s.take(k) =~= s);
    }
}

/// Whether `c` occurs in `s`.
pub fn contains(s: &[char], c: char) -> (r: bool)
    ensures
        r == (find_char(s@, c) is Some),
{
    match find(s, c) {
        Some(_) => true,
        None => false,
    }
}

/// `s` without every leading repetition of the non-empty `p`.
pub fn trim_start_matches(s: &[char], p: &[char]) -> (r: Vec<char>)
    requires
        p@.len() > 0,
    ensures
        r@ == trim_start_str(s@, p@),
{
    let mut cur = slice_of(s, 0, s.len());
    proof {
        assert(cur@ =~= s@);
    }
    let mut go = has_prefix(cur.as_slice(), p);
    while go
        invariant
            p@.len() > 0,
            go == starts_with(cur@, p@),
            trim_start_str(cur@, p@) == trim_start_str(s@, p@),
        decreases cur@.len(),
    {
        let n = cur.len();
        let ghost before = cur@;
        cur = slice_of(cur.as_slice(), p.len(), n);
        proof {
            assert(cur@ =~= before.skip(p@.len() as int));
        }
        go = has_prefix(cur.as_slice(), p);
    }
    cur
}

/// Splits `s` at every `c`.
pub fn split_at_char(s: &[char], c: char) -> (r: Vec<Vec<char>>)
    ensures
        r@.map_values(|v: Vec<char>| v@) == split_char(s@, c),
{
    let mut out: Vec<Vec<char>> = Vec::new();
    let mut rest = slice_of(s, 0, s.len());
    proof {
        assert(rest@ =~= s@);
        assert(out@.map_values(|v: Vec<char>| v@) + split_char(rest@, c) =~= split_char(s@, c));
    }
    loop
        invariant
            out@.map_values(|v: Vec<char>| v@) + split_char(rest@, c) == split_char(s@, c),
        decreases rest@.len(),
    {
        proof {
            lemma_find_char_range(rest@, c);
        }
        match find(rest.as_slice(), c) {
            None => {
                let ghost before = out@;
                out.push(rest);
                proof {
                    assert(out@.map_values(|v: Vec<char>| v@) =~= before.map_values(
                        |v: Vec<char>| v@,
                    ) + split_char(rest@, c));
                }
                return out;
            },
            Some(i) => {
                let ghost before = out@;
                let ghost old_rest = rest@;
                let head = slice_of(rest.as_slice(), 0, i);
                let n = rest.len();
                let tail = slice_of(rest.as_slice(), i + 1, n);
                out.push(head);
                rest = tail;
                proof {
                    assert(head@ =~= old_rest.take(i as int));
                    assert(rest@ =~= old_rest.skip(i + 1));
                    assert(out@.map_values(|v: Vec<char>| v@) =~= before.map_values(
                        |v: Vec<char>| v@,
                    ).push(old_rest.take(i as int)));
                    assert(split_char(old_rest, c) == seq![old_rest.take(i as int)] + split_char(
                        old_rest.skip(i + 1),
                        c,
                    ));
                    assert(out@.map_values(|v: Vec<char>| v@) + split_char(rest@, c)
                        =~= before.map_values(|v: Vec<char>| v@) + split_char(old_rest, c));
                }
            },
        }
    }
}

/// Splits `s` at its first `n - 1` occurrences of `c`.
pub fn splitn_at_char(s: &[char], n: usize, c: char) -> (r: Vec<Vec<char>>)
    ensures
        r@.map_values(|v: Vec<char>| v@) == splitn_char(s@, n as nat, c),
{
    let mut out: Vec<Vec<char>> = Vec::new();
    let mut rest = slice_of(s, 0, s.len());
    let mut k: usize = n;
    proof {
        assert(rest@ =~= s@);
        assert(out@.map_values(|v: Vec<char>| v@) + splitn_char(rest@, k as nat, c) =~= splitn_char(
            s@,
            n as nat,
            c,
        ));
    }
    loop
        invariant
            out@.map_values(|v: Vec<char>| v@) + splitn_char(rest@, k as nat, c) == splitn_char(
                s@,
                n as nat,
                c,
            ),
        decreases rest@.len(),
    {
        proof {
            lemma_find_char_range(rest@, c);
        }
        let found = if k <= 1 {
            None
        } else {
            find(rest.as_slice(), c)
        };
        match found {
            None => {
                let ghost before = out@;
                let ghost rv = rest@;
                out.push(rest);
                proof {
                    assert(splitn_char(rv, k as nat, c) == seq![rv]);
                    assert(out@.map_values(|v: Vec<char>| v@) =~= before.map_values(
                        |v: Vec<char>| v@,
                    ) + splitn_char(rv, k as nat, c));
                }
                return out;
            },
            Some(i) => {
                let ghost before = out@;
                let ghost old_rest = rest@;
                let head = slice_of(rest.as_slice(), 0, i);
                let len = rest.len();
                let tail = slice_of(rest.as_slice(), i + 1, len);
                out.push(head);
                rest = tail;
                let ghost old_k = k;
                k = k - 1;
                proof {
                    assert(head@ =~= old_rest.take(i as int));
                    assert(rest@ =~= old_rest.skip(i + 1));
                    assert(splitn_char(old_rest, old_k as nat, c) == seq![old_rest.take(i as int)]
                        + splitn_char(old_rest.skip(i + 1), k as nat, c));
                    assert(out@.map_values(|v: Vec<char>| v@) + splitn_char(rest@, k as nat, c)
                        =~= before.map_values(|v: Vec<char>| v@) + splitn_char(
                        old_rest,
                        old_k as nat,
                        c,
                    ));
                }
            },
        }
    }
}

/// The maximal runs of non-white-space characters of `s`.
pub fn split_whitespace(s: &[char]) -> (r: Vec<Vec<char>>)
    ensures
        r@.map_values(|v: Vec<char>| v@) == split_ws(s@),
{
    let mut words: Vec<Vec<char>> = Vec::new();
    let mut cur: Vec<char> = Vec::new();
    let mut i: usize = 0;
    proof {
        assert(s@.skip(0) =~= s@);
        assert(words@.map_values(|v: Vec<char>| v@) =~= Seq::<Seq<char>>::empty());
        assert(cur@ =~= Seq::<char>::empty());
    }
    while i < s.len()
        invariant
            i <= s@.len(),
            split_ws_acc(s@.skip(i as int), words@.map_values(|v: Vec<char>| v@), cur@) == split_ws(
                s@,
            ),
        decreases s.len() - i,
    {
        let ghost wv = words@.map_values(|v: Vec<char>| v@);
        let ghost cv = cur@;
        let ghost rest = s@.skip(i as int);
        proof {
            assert(rest[0] == s@[i as int]);
            assert(rest.drop_first() =~= s@.skip(i + 1));
        }
        if is_whitespace(s[i]) {
            if cur.len() > 0 {
                let w = cur;
                words.push(w);
                cur = Vec::new();
                proof {
                    assert(words@.map_values(|v: Vec<char>| v@) =~= wv.push(cv));
                    assert(cur@ =~= Seq::<char>::empty());
                }
            } else {
                proof {
                    assert(cv =~= Seq::<char>::empty());
                }
            }
        } else {
            cur.push(s[i]);
        }
        i = i + 1;
    }
    proof {
        assert(s@.skip(i as int) =~= Seq::<char>::empty());
    }
    if cur.len() > 0 {
        let ghost wv = words@.map_values(|v: Vec<char>| v@);
        let ghost cv = cur@;
        words.push(cur);
        proof {
            assert(words@.map_values(|v: Vec<char>| v@) =~= wv.push(cv));
        }
    }
    words
}

/// Whether `a` and `b` are equal ignoring ASCII case.
pub fn equals_ignore_case(a: &[char], b: &[char]) -> (r: bool)
    ensures
        r == eq_ignore_case(a@, b@),
{
    if a.len() != b.len() {
        return false;
    }
    let mut i: usize = 0;
    while i < a.len()
        invariant
            i <= a@.len(),
            a@.len() == b@.len(),
            forall|j: int| 0 <= j < i ==> ascii_lower(a@[j]) == ascii_lower(b@[j]),
        decreases a.len() - i,
    {
        let x = a[i];
        let y = b[i];
        let lx = if 'A' <= x && x <= 'Z' {
            ((x as u32) + 32) as u8 as char
        } else {
            x
        };
        let ly = if 'A' <= y && y <= 'Z' {
            ((y as u32) + 32) as u8 as char
        } else {
            y
        };
        proof {
            if 'A' <= x && x <= 'Z' {
                assert(lx == ascii_lower(x));
            }
            if 'A' <= y && y <= 'Z' {
                assert(ly == ascii_lower(y));
            }
        }
        if lx != ly {
            return false;
        }
        i = i + 1;
    }
    true
}

/// `s` cut at its first `//`.
pub open spec fn strip_comment(s: Seq<char>) -> Seq<char> {
    match find_pair(s, '/', '/') {
        Some(i) => s.take(i),
        None => s,
    }
}

proof fn lemma_find_pair_extend(s: Seq<char>, k: int)
    requires
        2 <= k <= s.len(),
        find_pair(s.take(k), '/', '/') is Some,
    ensures
        find_pair(s, '/', '/') == find_pair(s.take(k), '/', '/'),
    decreases s.len() - k,
{
    if k < s.len() {
        assert(s.take(k + 1).drop_last() =~= s.take(k));
        lemma_find_pair_extend(s, k + 1);
    } else {
        assert(s.take(k) =~= s);
    }
}

proof fn lemma_find_pair_range(s: Seq<char>)
    ensures
        find_pair(s, '/', '/') matches Some(i) ==> 0 <= i <= s.len() - 2,
    decreases s.len(),
{
    if s.len() >= 2 {
        lemma_find_pair_range(s.drop_last());
    }
}

/// `s` cut at its first `//`.
pub fn cut_comment(s: &[char]) -> (r: Vec<char>)
    ensures
        r@ == strip_comment(s@),
{
    if s.len() < 2 {
        proof {
            assert(find_pair(s@, '/', '/') is None);
            assert(s@.subrange(0, s@.len() as int) =~= s@);
        }
        return slice_of(s, 0, s.len());
    }
    let mut i: usize = 0;
    proof {
        assert(s@.take(1).len() < 2);
    }
    while i < s.len() - 1
        invariant
            2 <= s@.len(),
            i <= s@.len() - 1,
            find_pair(s@.take(i + 1), '/', '/') is None,
        decreases s.len() - i,
    {
        proof {
            assert(s@.take(i + 2).drop_last() =~= s@.take(i + 1));
            assert(s@.take(i + 2)[i as int] == s@[i as int]);
        }
        if s[i] == '/' && s[i + 1] == '/' {
            proof {
                lemma_find_pair_extend(s@, i + 2);
            }
            return slice_of(s, 0, i);
        }
        i = i + 1;
    }
    proof {
        assert(s@.take(i + 1) =~= s@);
        assert(s@.subrange(0, s@.len() as int) =~= s@);
    }
    slice_of(s, 0, s.len())
}

/// The value of `c` as a digit in base `radix` (10 or 16; letters in
/// either case), if it is one.
pub open spec fn radix_digit(c: char, radix: int) -> Option<int> {
    if '0' <= c && c <= '9' {
        Some(c as int - '0' as int)
    } else if radix == 16 && 'a' <= c && c <= 'f' {
        Some(c as int - 'a' as int + 10)
    } else if radix == 16 && 'A' <= c && c <= 'F' {
        Some(c as int - 'A' as int + 10)
    } else {
        None
    }
}

/// Whether every character of `s` is a digit in base `radix`.
pub open spec fn all_radix_digits(s: Seq<char>, radix: int) -> bool {
    forall|i: int| 0 <= i < s.len() ==> #[trigger] radix_digit(s[i], radix) is Some
}

/// The value of the digits `s` in base `radix`, most significant first.
pub open spec fn radix_value(s: Seq<char>, radix: int) -> int
    decreases s.len(),
{
    if s.len() == 0 {
        0
    } else {
        radix_value(s.drop_last(), radix) * radix + radix_digit(s.last(), radix)->0
    }
}

/// The sign and digits of a number: a leading `+`, or `-` when negative
/// numbers are allowed, is taken off.
pub open spec fn sign_and_digits(s: Seq<char>, signed: bool) -> (bool, Seq<char>) {
    if s.len() > 0 && s[0] == '+' {
        (false, s.drop_first())
    } else if signed && s.len() > 0 && s[0] == '-' {
        (true, s.drop_first())
    } else {
        (false, s)
    }
}

/// What `i64::from_str_radix` (`signed`) or `u64::from_str_radix` gives
/// for `s`: a sign as allowed, then one or more digits, with the value in
/// range.
pub open spec fn parse_radix(s: Seq<char>, radix: int, signed: bool) -> Option<int> {
    let (neg, d) = sign_and_digits(s, signed);
    if d.len() == 0 || !all_radix_digits(d, radix) {
        None
    } else {
        let v = if neg {
            -radix_value(d, radix)
        } else {
            radix_value(d, radix)
        };
        if signed && i64::MIN <= v <= i64::MAX {
            Some(v)
        } else if !signed && 0 <= v <= u64::MAX {
            Some(v)
        } else {
            None
        }
    }
}

proof fn lemma_radix_value_grows(s: Seq<char>, radix: int, k: int)
    requires
        0 <= k <= s.len(),
        radix == 10 || radix == 16,
        all_radix_digits(s, radix),
    ensures
        0 <= radix_value(s.take(k), radix) <= radix_value(s, radix),
    decreases s.len() - k,
{
    if k < s.len() {
        lemma_radix_value_grows(s, radix, k + 1);
        let t = s.take(k + 1);
        assert(t.drop_last() =~= s.take(k));
        assert(radix_digit(s[k], radix) is Some);
        assert(radix_value(t, radix) == radix_value(s.take(k), radix) * radix + radix_digit(
            t.last(),
            radix,
        )->0);
        assert(radix_value(s.take(k), radix) * radix >= radix_value(s.take(k), radix)) by (
        nonlinear_arith)
            requires
                radix_value(s.take(k), radix) >= 0,
                radix >= 10,
        ;
    } else {
        assert(s.take(k) =~= s);
        lemma_radix_value_nonneg(s, radix);
    }
}

proof fn lemma_radix_value_nonneg(s: Seq<char>, radix: int)
    requires
        radix == 10 || radix == 16,
        all_radix_digits(s, radix),
    ensures
        radix_value(s, radix) >= 0,
    decreases s.len(),
{
    if s.len() > 0 {
        lemma_radix_value_nonneg(s.drop_last(), radix);
        assert(radix_digit(s[s.len() - 1], radix) is Some);
        assert(radix_value(s.drop_last(), radix) * radix >= 0) by (nonlinear_arith)
            requires
                radix_value(s.drop_last(), radix) >= 0,
                radix >= 10,
        ;
    }
}

pub(crate) fn digit_of(c: char, radix: u32) -> (r: Option<u32>)
    requires
        radix == 10 || radix == 16,
    ensures
        match radix_digit(c, radix as int) {
            Some(v) => r == Some(v as u32),
            None => r is None,
        },
{
    if '0' <= c && c <= '9' {
        Some((c as u32) - ('0' as u32))
    } else if radix == 16 && 'a' <= c && c <= 'f' {
        Some((c as u32) - ('a' as u32) + 10)
    } else if radix == 16 && 'A' <= c && c <= 'F' {
        Some((c as u32) - ('A' as u32) + 10)
    } else {
        None
    }
}

/// Parses `s` as `i64::from_str_radix` (`signed`) or `u64::from_str_radix`
/// does, in base 10 or 16.
pub fn parse_radix_chars(s: &[char], radix: u32, signed: bool) -> (r: Option<i128>)
    requires
        radix == 10 || radix == 16,
    ensures
        match parse_radix(s@, radix as int, signed) {
            Some(v) => r == Some(v as i128),
            None => r is None,
        },
{
    let mut start: usize = 0;
    let mut neg = false;
    if s.len() > 0 && s[0] == '+' {
        start = 1;
    } else if signed && s.len() > 0 && s[0] == '-' {
        start = 1;
        neg = true;
    }
    let ghost d = sign_and_digits(s@, signed).1;
    proof {
        assert(d =~= s@.skip(start as int));
        assert(neg == sign_and_digits(s@, signed).0);
    }
    if start >= s.len() {
        return None;
    }
    let limit: u128 = 0x1_0000_0000_0000_0000;
    let mut acc: u128 = 0;
    let mut i: usize = start;
    while i < s.len()
        invariant
            start <= i <= s@.len(),
            start < s@.len(),
            radix == 10 || radix == 16,
            d == s@.skip(start as int),
            d == sign_and_digits(s@, signed).1,
            neg == sign_and_digits(s@, signed).0,
            limit == 0x1_0000_0000_0000_0000,
            all_radix_digits(d.take(i - start), radix as int),
            acc == radix_value(d.take(i - start), radix as int),
            acc <= limit,
        decreases s.len() - i,
    {
        let c = s[i];
        proof {
            assert(d[i - start] == c);
        }
        let v = match digit_of(c, radix) {
            Some(v) => v,
            None => {
                proof {
                    assert(!(radix_digit(d[i - start], radix as int) is Some));
                }
                return None;
            },
        };
        let ghost prev = d.take(i - start);
        proof {
            assert(d.take(i + 1 - start).drop_last() =~= prev);
            assert(d.take(i + 1 - start).last() == c);
            assert(all_radix_digits(d.take(i + 1 - start), radix as int)) by {
                assert forall|j: int| 0 <= j < i + 1 - start implies #[trigger] radix_digit(
                    d.take(i + 1 - start)[j],
                    radix as int,
                ) is Some by {
                    if j < i - start {
                        assert(d.take(i + 1 - start)[j] == prev[j]);
                    }
                }
            }
        }
        assert(v < radix);
        assert((acc as int) * (radix as int) + (v as int) <= 0x1_0000_0000_0000_0000 * 16 + 16)
            by (nonlinear_arith)
            requires
                acc <= 0x1_0000_0000_0000_0000,
                radix <= 16,
                v < 16,
        ;
        proof {
            assert(radix_value(d.take(i + 1 - start), radix as int) == radix_value(prev, radix as int)
                * radix + v);
        }
        acc = acc * (radix as u128) + (v as u128);
        i = i + 1;
        if acc > limit {
            proof {
                if all_radix_digits(d, radix as int) {
                    lemma_radix_value_grows(d, radix as int, i - start);
                }
            }
            return None;
        }
    }
    proof {
        assert(d.take(s@.len() - start) =~= d);
    }
    if neg {
        if acc > 0x8000_0000_0000_0000 {
            return None;
        }
        Some(-(acc as i128))
    } else if signed {
        if acc > 0x7FFF_FFFF_FFFF_FFFF {
            return None;
        }
        Some(acc as i128)
    } else {
        if acc > 0xFFFF_FFFF_FFFF_FFFF {
            return None;
        }
        Some(acc as i128)
    }
}

} // verus!
