//! Character-level helpers shared by the tokenizers: whitespace trimming,
//! first-occurrence search for a character or a substring, and string
//! equality, each specified over the `Seq<char>` view of a `&str`.

use vstd::prelude::*;
use vstd::string::StrSliceExecFns;

verus! {

/// Whether `c` has the Unicode `White_Space` property: the set of characters
/// that trimming removes.
pub open spec fn is_ws_char(c: char) -> bool {
    let u = c as u32;
    ||| (0x09 <= u && u <= 0x0D)
    ||| u == 0x20
    ||| u == 0x85
    ||| u == 0xA0
    ||| u == 0x1680
    ||| (0x2000 <= u && u <= 0x200A)
    ||| u == 0x2028
    ||| u == 0x2029
    ||| u == 0x202F
    ||| u == 0x205F
    ||| u == 0x3000
}

/// Runtime test for `is_ws_char`.
pub fn is_ws(c: char) -> (b: bool)
    ensures
        b == is_ws_char(c),
{
    let u = c as u32;
    (0x09 <= u && u <= 0x0D) || u == 0x20 || u == 0x85 || u == 0xA0 || u == 0x1680
        || (0x2000 <= u && u <= 0x200A) || u == 0x2028 || u == 0x2029 || u == 0x202F
        || u == 0x205F || u == 0x3000
}

/// `s` without its longest all-whitespace prefix.
pub open spec fn drop_ws_front(s: Seq<char>) -> Seq<char>
    decreases s.len(),
{
    if s.len() > 0 && is_ws_char(s[0]) {
        drop_ws_front(s.subrange(1, s.len() as int))
    } else {
        s
    }
}

/// `s` without its longest all-whitespace suffix.
pub open spec fn drop_ws_back(s: Seq<char>) -> Seq<char>
    decreases s.len(),
{
    if s.len() > 0 && is_ws_char(s[s.len() - 1]) {
        drop_ws_back(s.subrange(0, s.len() - 1))
    } else {
        s
    }
}

/// `s` without leading and trailing whitespace.
pub open spec fn spec_trim(s: Seq<char>) -> Seq<char> {
    drop_ws_back(drop_ws_front(s))
}

proof fn lemma_drop_ws_front_at(s: Seq<char>, i: int)
    requires
        0 <= i <= s.len(),
        forall|k: int| 0 <= k < i ==> is_ws_char(s[k]),
        i < s.len() ==> !is_ws_char(s[i]),
    ensures
        drop_ws_front(s) == s.subrange(i, s.len() as int),
    decreases i,
{
    if i == 0 {
        assert(s.subrange(0, s.len() as int) =~= s);
    } else {
        let s1 = s.subrange(1, s.len() as int);
        lemma_drop_ws_front_at(s1, i - 1);
        assert(s1.subrange(i - 1, s1.len() as int) =~= s.subrange(i, s.len() as int));
    }
}

proof fn lemma_drop_ws_back_at(s: Seq<char>, j: int)
    requires
        0 <= j <= s.len(),
        forall|k: int| j <= k < s.len() ==> is_ws_char(s[k]),
        j > 0 ==> !is_ws_char(s[j - 1]),
    ensures
        drop_ws_back(s) == s.subrange(0, j),
    decreases s.len() - j,
{
    if j == s.len() {
        assert(s.subrange(0, s.len() as int) =~= s);
    } else {
        let s1 = s.subrange(0, s.len() - 1);
        lemma_drop_ws_back_at(s1, j);
        assert(s1.subrange(0, j) =~= s.subrange(0, j));
    }
}

/// Returns `s` without leading and trailing whitespace.
pub fn trim(s: &str) -> (r: &str)
    ensures
        r@ == spec_trim(s@),
{
    let n = s.unicode_len();
    let mut i: usize = 0;
    while i < n && is_ws(s.get_char(i))
        invariant
            0 <= i <= n,
            n == s@.len(),
            forall|k: int| 0 <= k < i ==> is_ws_char(s@[k]),
        decreases n - i,
    {
        i = i + 1;
    }
    let mut j: usize = n;
    while j > i && is_ws(s.get_char(j - 1))
        invariant
            i <= j <= n,
            n == s@.len(),
            i == n || !is_ws_char(s@[i as int]),
            forall|k: int| 0 <= k < i ==> is_ws_char(s@[k]),
            forall|k: int| j <= k < n ==> is_ws_char(s@[k]),
        decreases j,
    {
        j = j - 1;
    }
    proof {
        lemma_drop_ws_front_at(s@, i as int);
        let t = s@.subrange(i as int, s@.len() as int);
        lemma_drop_ws_back_at(t, j - i);
        assert(t.subrange(0, j - i) =~= s@.subrange(i as int, j as int));
    }
    s.substring_char(i, j)
}

/// The index of the first occurrence of `c` in `s`, or `s.len()` when `c`
/// does not occur.
pub open spec fn idx_of_char(s: Seq<char>, c: char) -> int
    decreases s.len(),
{
    if s.len() == 0 {
        0
    } else if s[0] == c {
        0
    } else {
        1 + idx_of_char(s.subrange(1, s.len() as int), c)
    }
}

pub proof fn lemma_idx_of_char_props(s: Seq<char>, c: char)
    ensures
        0 <= idx_of_char(s, c) <= s.len(),
        idx_of_char(s, c) < s.len() ==> s[idx_of_char(s, c)] == c,
        forall|k: int| 0 <= k < idx_of_char(s, c) ==> s[k] != c,
    decreases s.len(),
{
    if s.len() > 0 && s[0] != c {
        let s1 = s.subrange(1, s.len() as int);
        lemma_idx_of_char_props(s1, c);
        assert forall|k: int| 0 <= k < idx_of_char(s, c) implies s[k] != c by {
            if k > 0 {
                assert(s1[k - 1] != c);
            }
        }
    }
}

pub proof fn lemma_idx_of_char_at(s: Seq<char>, c: char, i: int)
    requires
        0 <= i <= s.len(),
        forall|k: int| 0 <= k < i ==> s[k] != c,
        i < s.len() ==> s[i] == c,
    ensures
        idx_of_char(s, c) == i,
    decreases i,
{
    if i > 0 {
        let s1 = s.subrange(1, s.len() as int);
        lemma_idx_of_char_at(s1, c, i - 1);
    }
}

pub proof fn lemma_idx_of_char_concat(a: Seq<char>, b: Seq<char>, c: char)
    ensures
        idx_of_char(a + b, c) == (if idx_of_char(a, c) < a.len() {
            idx_of_char(a, c)
        } else {
            a.len() + idx_of_char(b, c)
        }),
{
    lemma_idx_of_char_props(a, c);
    lemma_idx_of_char_props(b, c);
    let ia = idx_of_char(a, c);
    let ib = idx_of_char(b, c);
    let j: int = if ia < a.len() {
        ia
    } else {
        a.len() + ib
    };
    assert forall|k: int| 0 <= k < j implies (a + b)[k] != c by {
        if k < a.len() {
            assert(a[k] != c);
        } else {
            assert(b[k - a.len()] != c);
        }
    }
    if j < (a + b).len() {
        if ia < a.len() {
            assert((a + b)[j] == a[ia]);
        } else {
            assert((a + b)[j] == b[ib]);
        }
    }
    lemma_idx_of_char_at(a + b, c, j);
}

/// Returns the position of the first occurrence of `c` in `s`, if any.
pub fn find_char(s: &str, c: char) -> (r: Option<usize>)
    ensures
        match r {
            Some(i) => i == idx_of_char(s@, c) && i < s@.len() && s@[i as int] == c,
            None => idx_of_char(s@, c) == s@.len(),
        },
{
    let n = s.unicode_len();
    let mut i: usize = 0;
    while i < n
        invariant
            0 <= i <= n,
            n == s@.len(),
            forall|k: int| 0 <= k < i ==> s@[k] != c,
        decreases n - i,
    {
        if s.get_char(i) == c {
            proof {
                lemma_idx_of_char_at(s@, c, i as int);
            }
            return Some(i);
        }
        i = i + 1;
    }
    proof {
        lemma_idx_of_char_at(s@, c, n as int);
    }
    None
}

/// Whether the two strings hold the same characters.
pub fn str_eq(a: &str, b: &str) -> (r: bool)
    ensures
        r == (a@ == b@),
{
    let la = a.unicode_len();
    let lb = b.unicode_len();
    if la != lb {
        return false;
    }
    let mut k: usize = 0;
    while k < la
        invariant
            0 <= k <= la,
            la == a@.len(),
            lb == b@.len(),
            la == lb,
            forall|t: int| 0 <= t < k ==> a@[t] == b@[t],
        decreases la - k,
    {
        if a.get_char(k) != b.get_char(k) {
            return false;
        }
        k = k + 1;
    }
    proof {
        assert(a@ =~= b@);
    }
    true
}

/// The index of the first occurrence of `d` as a substring of `s`, or
/// `s.len()` when `d` does not occur.
pub open spec fn idx_of_seq(s: Seq<char>, d: Seq<char>) -> int
    decreases s.len(),
{
    if s.len() >= d.len() && d.len() > 0 && s.subrange(0, d.len() as int) == d {
        0
    } else if s.len() == 0 {
        0
    } else {
        1 + idx_of_seq(s.subrange(1, s.len() as int), d)
    }
}

/// Whether `d` occurs in `s` starting at index `i`.
pub open spec fn matches_at(s: Seq<char>, d: Seq<char>, i: int) -> bool {
    0 <= i && i + d.len() <= s.len() && s.subrange(i, i + d.len()) == d
}

pub proof fn lemma_idx_of_seq_props(s: Seq<char>, d: Seq<char>)
    requires
        d.len() > 0,
    ensures
        0 <= idx_of_seq(s, d) <= s.len(),
        idx_of_seq(s, d) < s.len() ==> matches_at(s, d, idx_of_seq(s, d)),
        forall|k: int| 0 <= k < idx_of_seq(s, d) ==> !matches_at(s, d, k),
    decreases s.len(),
{
    let i = idx_of_seq(s, d);
    if s.len() >= d.len() && s.subrange(0, d.len() as int) == d {
        assert(matches_at(s, d, 0));
    } else if s.len() == 0 {
    } else {
        let s1 = s.subrange(1, s.len() as int);
        lemma_idx_of_seq_props(s1, d);
        let i1 = idx_of_seq(s1, d);
        if i1 < s1.len() {
            assert(s1.subrange(i1, i1 + d.len()) =~= s.subrange(i, i + d.len()));
        }
        assert forall|k: int| 0 <= k < i implies !matches_at(s, d, k) by {
            if k == 0 {
                if s.len() >= d.len() {
                    assert(!matches_at(s, d, 0));
                }
            } else {
                assert(!matches_at(s1, d, k - 1));
                if matches_at(s, d, k) {
                    assert(s1.subrange(k - 1, k - 1 + d.len()) =~= s.subrange(k, k + d.len()));
                }
            }
        }
    }
}

proof fn lemma_idx_of_seq_at(s: Seq<char>, d: Seq<char>, i: int)
    requires
        d.len() > 0,
        0 <= i <= s.len(),
        forall|k: int| 0 <= k < i ==> !matches_at(s, d, k),
        i < s.len() ==> matches_at(s, d, i),
        i == s.len() ==> forall|k: int| 0 <= k <= s.len() ==> !matches_at(s, d, k),
    ensures
        idx_of_seq(s, d) == i,
    decreases i,
{
    if i == 0 {
        if s.len() > 0 && !(s.len() >= d.len() && s.subrange(0, d.len() as int) == d) {
            assert(matches_at(s, d, 0));
            assert(false);
        }
    } else {
        let s1 = s.subrange(1, s.len() as int);
        assert(!(s.len() >= d.len() && s.subrange(0, d.len() as int) == d)) by {
            assert(!matches_at(s, d, 0));
        }
        assert forall|k: int| 0 <= k < i - 1 implies !matches_at(s1, d, k) by {
            if matches_at(s1, d, k) {
                assert(s1.subrange(k, k + d.len()) =~= s.subrange(k + 1, k + 1 + d.len()));
                assert(matches_at(s, d, k + 1));
            }
        }
        if i - 1 < s1.len() {
            assert(matches_at(s, d, i));
            assert(s.subrange(i, i + d.len()) =~= s1.subrange(i - 1, i - 1 + d.len()));
        } else {
            assert forall|k: int| 0 <= k <= s1.len() implies !matches_at(s1, d, k) by {
                if matches_at(s1, d, k) {
                    assert(s1.subrange(k, k + d.len()) =~= s.subrange(k + 1, k + 1 + d.len()));
                    assert(matches_at(s, d, k + 1));
                }
            }
        }
        lemma_idx_of_seq_at(s1, d, i - 1);
    }
}

/// Whether `d` occurs in `s` at position `i`, checked character by character.
fn match_at(s: &str, d: &str, i: usize, sn: usize, dn: usize) -> (b: bool)
    requires
        sn == s@.len(),
        dn == d@.len(),
        i + dn <= sn,
    ensures
        b == matches_at(s@, d@, i as int),
{
    let mut k: usize = 0;
    while k < dn
        invariant
            0 <= k <= dn,
            sn == s@.len(),
            dn == d@.len(),
            i + dn <= sn,
            forall|t: int| 0 <= t < k ==> s@[i + t] == d@[t],
        decreases dn - k,
    {
        if s.get_char(i + k) != d.get_char(k) {
            proof {
                if matches_at(s@, d@, i as int) {
                    assert(s@.subrange(i as int, i + d@.len())[k as int] == d@[k as int]);
                }
            }
            return false;
        }
        k = k + 1;
    }
    proof {
        assert(s@.subrange(i as int, i + d@.len()) =~= d@);
    }
    true
}

/// Returns the position of the first occurrence of the substring `d` in `s`,
/// if any.
pub fn find_sub(s: &str, d: &str) -> (r: Option<usize>)
    requires
        d@.len() > 0,
    ensures
        match r {
            Some(i) => i == idx_of_seq(s@, d@) && matches_at(s@, d@, i as int),
            None => idx_of_seq(s@, d@) == s@.len(),
        },
{
    let sn = s.unicode_len();
    let dn = d.unicode_len();
    if dn > sn {
        proof {
            assert forall|k: int| 0 <= k <= s@.len() implies !matches_at(s@, d@, k) by {}
            lemma_idx_of_seq_at(s@, d@, sn as int);
        }
        return None;
    }
    let mut i: usize = 0;
    while i <= sn - dn
        invariant
            0 <= i,
            dn <= sn,
            i <= sn - dn + 1,
            sn == s@.len(),
            dn == d@.len(),
            dn >= 1,
            forall|k: int| 0 <= k < i ==> !matches_at(s@, d@, k),
        decreases sn - i,
    {
        if match_at(s, d, i, sn, dn) {
            proof {
                lemma_idx_of_seq_at(s@, d@, i as int);
            }
            return Some(i);
        }
        i = i + 1;
    }
    proof {
        assert forall|k: int| 0 <= k <= s@.len() implies !matches_at(s@, d@, k) by {}
        lemma_idx_of_seq_at(s@, d@, sn as int);
    }
    None
}

} // verus!
