//! Character-level text helpers: the whitespace predicate, trimming, and
//! string equality, stated over `Seq<char>` views.
use vstd::prelude::*;
use vstd::string::StrSliceExecFns;

verus! {

/// The Unicode `White_Space` code points, the set that `str::trim` and
/// `str::split_whitespace` go by.
pub open spec fn is_space_char(c: char) -> bool {
    let u = c as int;
    u == 0x20 || (0x09 <= u && u <= 0x0D) || u == 0x85 || u == 0xA0 || u == 0x1680 || (0x2000
        <= u && u <= 0x200A) || u == 0x2028 || u == 0x2029 || u == 0x202F || u == 0x205F || u
        == 0x3000
}

pub fn is_space(c: char) -> (r: bool)
    ensures
        r == is_space_char(c),
{
    let u = c as u32;
    u == 0x20 || (0x09 <= u && u <= 0x0D) || u == 0x85 || u == 0xA0 || u == 0x1680 || (0x2000 <= u
        && u <= 0x200A) || u == 0x2028 || u == 0x2029 || u == 0x202F || u == 0x205F || u == 0x3000
}

/// The line with leading and trailing whitespace removed.
pub open spec fn trimmed(s: Seq<char>) -> Seq<char>
    decreases s.len(),
{
    if s.len() == 0 {
        s
    } else if is_space_char(s[0]) {
        trimmed(s.skip(1))
    } else if is_space_char(s[s.len() - 1]) {
        trimmed(s.take(s.len() - 1))
    } else {
        s
    }
}

/// What `str::trim` returns.
pub fn trim_line(s: &str) -> (r: &str)
    ensures
        r@ == trimmed(s@),
        r@.len() > 0 ==> !is_space_char(r@[0]) && !is_space_char(r@[r@.len() - 1]),
{
    let n = s.unicode_len();
    let mut lo: usize = 0;
    let mut hi: usize = n;
    proof {
        assert(s@.subrange(0, n as int) =~= s@);
    }
    while lo < hi && is_space(s.get_char(lo))
        invariant
            lo <= hi <= s@.len(),
            trimmed(s@) == trimmed(s@.subrange(lo as int, hi as int)),
        decreases hi - lo,
    {
        proof {
            let cur = s@.subrange(lo as int, hi as int);
            assert(cur.skip(1) =~= s@.subrange(lo as int + 1, hi as int));
        }
        lo = lo + 1;
    }
    while lo < hi && is_space(s.get_char(hi - 1))
        invariant
            lo <= hi <= s@.len(),
            trimmed(s@) == trimmed(s@.subrange(lo as int, hi as int)),
            lo < hi ==> !is_space_char(s@[lo as int]),
        decreases hi - lo,
    {
        proof {
            let cur = s@.subrange(lo as int, hi as int);
            assert(cur.take(cur.len() - 1) =~= s@.subrange(lo as int, hi as int - 1));
        }
        hi = hi - 1;
    }
    proof {
        let cur = s@.subrange(lo as int, hi as int);
        if lo == hi {
            assert(trimmed(cur) == cur);
        } else {
            assert(!is_space_char(cur[0]));
            assert(!is_space_char(cur[cur.len() - 1]));
        }
    }
    s.substring_char(lo, hi)
}

/// Character-for-character string equality.
pub fn str_eq(a: &str, b: &str) -> (r: bool)
    ensures
        r == (a@ == b@),
{
    let na = a.unicode_len();
    let nb = b.unicode_len();
    if na != nb {
        proof {
            assert(a@ != b@);
        }
        return false;
    }
    let mut i: usize = 0;
    while i < na
        invariant
            i <= na,
            na == a@.len() == b@.len(),
            forall|j: int| 0 <= j < i ==> a@[j] == b@[j],
        decreases na - i,
    {
        if a.get_char(i) != b.get_char(i) {
            return false;
        }
        i = i + 1;
    }
    proof {
        assert(a@ =~= b@);
    }
    true
}

/// The whitespace-separated words of `cur + s`, where `cur` is the word read
/// so far.
pub open spec fn words_acc(s: Seq<char>, cur: Seq<char>) -> Seq<Seq<char>>
    decreases s.len(),
{
    if s.len() == 0 {
        if cur.len() == 0 {
            Seq::empty()
        } else {
            seq![cur]
        }
    } else if is_space_char(s[0]) {
        if cur.len() == 0 {
            words_acc(s.skip(1), Seq::empty())
        } else {
            seq![cur] + words_acc(s.skip(1), Seq::empty())
        }
    } else {
        words_acc(s.skip(1), cur.push(s[0]))
    }
}

/// What `str::split_whitespace` yields: the maximal runs of non-whitespace.
pub open spec fn words_of(s: Seq<char>) -> Seq<Seq<char>> {
    words_acc(s, Seq::empty())
}

proof fn lemma_words_acc_nonempty(s: Seq<char>, cur: Seq<char>)
    requires
        cur.len() > 0,
    ensures
        words_acc(s, cur).len() > 0,
    decreases s.len(),
{
    if s.len() > 0 && !is_space_char(s[0]) {
        lemma_words_acc_nonempty(s.skip(1), cur.push(s[0]));
    }
}

/// A line that starts with a non-whitespace character has a first word.
pub proof fn lemma_words_nonempty(s: Seq<char>)
    requires
        s.len() > 0,
        !is_space_char(s[0]),
    ensures
        words_of(s).len() > 0,
{
    lemma_words_acc_nonempty(s.skip(1), Seq::<char>::empty().push(s[0]));
    assert(words_of(s) == words_acc(s.skip(1), Seq::<char>::empty().push(s[0])));
}

/// Splits a line into its whitespace-separated words.
pub fn split_words(s: &str) -> (r: Vec<String>)
    ensures
        r.deep_view() == words_of(s@),
{
    let n = s.unicode_len();
    let mut r: Vec<String> = Vec::new();
    let mut start: usize = 0;  // start of the current word, == i when not in a word
    let mut i: usize = 0;
    proof {
        assert(s@.skip(0) =~= s@);
        assert(s@.subrange(0, 0) =~= Seq::<char>::empty());
        assert(r.deep_view() + words_acc(s@, Seq::<char>::empty()) =~~= words_of(s@));
    }
    while i < n
        invariant
            start <= i <= n,
            n == s@.len(),
            forall|j: int| start <= j < i ==> !is_space_char(s@[j]),
            words_of(s@) == r.deep_view() + words_acc(
                s@.skip(i as int),
                s@.subrange(start as int, i as int),
            ),
        decreases n - i,
    {
        let ghost rest = s@.skip(i as int);
        let ghost cur = s@.subrange(start as int, i as int);
        proof {
            assert(rest[0] == s@[i as int]);
            assert(rest.skip(1) =~= s@.skip(i as int + 1));
        }
        if is_space(s.get_char(i)) {
            if start < i {
                let ghost prev = r.deep_view();
                let w = s.substring_char(start, i);
                r.push(w.to_owned());
                proof {
                    assert(r.deep_view() =~~= prev.push(cur));
                    assert(r.deep_view() + words_acc(rest.skip(1), Seq::<char>::empty()) =~~= prev
                        + words_acc(rest, cur));
                }
            }
            start = i + 1;
            proof {
                assert(s@.subrange(i as int + 1, i as int + 1) =~= Seq::<char>::empty());
            }
        } else {
            proof {
                assert(s@.subrange(start as int, i as int + 1) =~= cur.push(s@[i as int]));
            }
        }
        i = i + 1;
    }
    proof {
        assert(s@.skip(n as int) =~= Seq::<char>::empty());
    }
    if start < n {
        let ghost prev = r.deep_view();
        let ghost cur = s@.subrange(start as int, n as int);
        let w = s.substring_char(start, n);
        r.push(w.to_owned());
        proof {
            assert(r.deep_view() =~~= prev.push(cur));
            assert(prev.push(cur) =~~= prev + words_acc(Seq::<char>::empty(), cur));
        }
    }
    proof {
        assert(r.deep_view() + Seq::<Seq<char>>::empty() =~~= r.deep_view());
        assert(r.deep_view() =~~= words_of(s@));
    }
    r
}

/// The words joined back together with single spaces, as `[T].join(" ")`
/// produces from them.
pub open spec fn joined(parts: Seq<Seq<char>>) -> Seq<char>
    decreases parts.len(),
{
    if parts.len() == 0 {
        Seq::empty()
    } else if parts.len() == 1 {
        parts[0]
    } else {
        parts[0] + seq![' '] + joined(parts.skip(1))
    }
}

/// Joins the words from index `from` on with single spaces.
pub fn join_words(parts: &Vec<String>, from: usize) -> (r: String)
    requires
        from <= parts.len(),
    ensures
        r@ == joined(parts.deep_view().skip(from as int)),
    decreases parts.len() - from,
{
    if from == parts.len() {
        proof {
            assert(parts.deep_view().skip(from as int) =~= Seq::<Seq<char>>::empty());
        }
        String::new()
    } else if from + 1 == parts.len() {
        let mut r = String::new();
        r.append(parts[from].as_str());
        proof {
            let tail = parts.deep_view().skip(from as int);
            assert(tail.len() == 1);
            assert(tail[0] == parts.deep_view()[from as int]);
        }
        r
    } else {
        let mut r = String::new();
        r.append(parts[from].as_str());
        r.append(" ");
        let rest = join_words(parts, from + 1);
        r.append(rest.as_str());
        proof {
            let tail = parts.deep_view().skip(from as int);
            assert(tail.len() >= 2);
            assert(tail[0] == parts.deep_view()[from as int]);
            assert(tail.skip(1) =~= parts.deep_view().skip(from as int + 1));
            reveal_strlit(" ");
            assert(" "@ =~= seq![' ']);
            assert(r@ =~= joined(tail));
        }
        r
    }
}

} // verus!
