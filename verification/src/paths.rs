//! Path strings: segment splitting, trailing-slash normalization,
//! placeholder syntax, and prefix removal for static mounts.

use vstd::prelude::*;
use vstd::string::*;

verus! {

/// The views of a sequence of strings.
pub open spec fn seq_views(v: Seq<String>) -> Seq<Seq<char>> {
    Seq::new(v.len(), |i: int| v[i]@)
}

pub proof fn lemma_seq_views_push(v: Seq<String>, x: String)
    ensures
        seq_views(v.push(x)) =~= seq_views(v).push(x@),
{
}

/// An element-wise copy of a vector of strings.
pub fn clone_strings(v: &Vec<String>) -> (r: Vec<String>)
    ensures
        r@ == v@,
{
    let mut out: Vec<String> = Vec::new();
    let mut i: usize = 0;
    while i < v.len()
        invariant
            i <= v@.len(),
            out@ =~= v@.subrange(0, i as int),
        decreases v@.len() - i,
    {
        out.push(v[i].clone());
        proof {
            assert(out@ =~= v@.subrange(0, i as int + 1));
        }
        i += 1;
    }
    proof {
        assert(out@ =~= v@);
    }
    out
}

/// Character-by-character string equality, proved against the string views.
pub fn str_eq(a: &str, b: &str) -> (r: bool)
    ensures
        r == (a@ == b@),
{
    let alen = a.unicode_len();
    let blen = b.unicode_len();
    if alen != blen {
        return false;
    }
    let mut i: usize = 0;
    while i < alen
        invariant
            i <= alen,
            alen == a@.len(),
            blen == b@.len(),
            alen == blen,
            forall|j: int| 0 <= j < i ==> a@[j] == b@[j],
        decreases alen - i,
    {
        if a.get_char(i) != b.get_char(i) {
            return false;
        }
        i += 1;
    }
    proof {
        assert(a@ =~= b@);
    }
    true
}

/// Splitting a path on `/` with empty components discarded, expressed as a
/// left-to-right scan carrying the segment built so far.
pub open spec fn split_acc(p: Seq<char>, cur: Seq<char>) -> Seq<Seq<char>>
    decreases p.len(),
{
    if p.len() == 0 {
        if cur.len() == 0 {
            Seq::empty()
        } else {
            seq![cur]
        }
    } else if p[0] == '/' {
        if cur.len() == 0 {
            split_acc(p.drop_first(), Seq::empty())
        } else {
            seq![cur] + split_acc(p.drop_first(), Seq::empty())
        }
    } else {
        split_acc(p.drop_first(), cur.push(p[0]))
    }
}

/// The segments of a path: maximal runs of non-`/` characters, in order.
/// Leading, trailing and repeated slashes contribute nothing.
pub open spec fn segments(p: Seq<char>) -> Seq<Seq<char>> {
    split_acc(p, Seq::empty())
}

/// One step of the scan, phrased over an index into the whole path.
proof fn lemma_split_acc_step(p: Seq<char>, i: int, cur: Seq<char>)
    requires
        0 <= i < p.len(),
    ensures
        p[i] == '/' && cur.len() == 0 ==> split_acc(p.skip(i), cur) == split_acc(
            p.skip(i + 1),
            Seq::<char>::empty(),
        ),
        p[i] == '/' && cur.len() > 0 ==> split_acc(p.skip(i), cur) == seq![cur] + split_acc(
            p.skip(i + 1),
            Seq::<char>::empty(),
        ),
        p[i] != '/' ==> split_acc(p.skip(i), cur) == split_acc(p.skip(i + 1), cur.push(p[i])),
{
    assert(p.skip(i).len() > 0);
    assert(p.skip(i)[0] == p[i]);
    assert(p.skip(i).drop_first() =~= p.skip(i + 1));
}

/// Splits `path` on `/`, discarding empty components.
pub fn split_path(path: &str) -> (r: Vec<String>)
    ensures
        seq_views(r@) == segments(path@),
{
    let len = path.unicode_len();
    let mut out: Vec<String> = Vec::new();
    let mut i: usize = 0;
    let mut seg_start: usize = 0;
    let mut in_seg: bool = false;
    proof {
        assert(path@.skip(0) =~= path@);
        assert(seq_views(out@) + split_acc(path@, Seq::<char>::empty()) =~= split_acc(
            path@,
            Seq::<char>::empty(),
        ));
    }
    while i < len
        invariant
            i <= len,
            len == path@.len(),
            in_seg ==> seg_start < i,
            segments(path@) == seq_views(out@) + split_acc(
                path@.skip(i as int),
                if in_seg {
                    path@.subrange(seg_start as int, i as int)
                } else {
                    Seq::<char>::empty()
                },
            ),
        decreases len - i,
    {
        let ghost cur: Seq<char> = if in_seg {
            path@.subrange(seg_start as int, i as int)
        } else {
            Seq::<char>::empty()
        };
        proof {
            lemma_split_acc_step(path@, i as int, cur);
        }
        let c = path.get_char(i);
        if c == '/' {
            if in_seg {
                let seg = path.substring_char(seg_start, i);
                let seg_string = String::from_str(seg);
                proof {
                    lemma_seq_views_push(out@, seg_string);
                    assert(seq_views(out@.push(seg_string)) =~= seq_views(out@) + seq![cur]);
                    assert(seq_views(out@) + seq![cur] + split_acc(
                        path@.skip(i as int + 1),
                        Seq::<char>::empty(),
                    ) =~= seq_views(out@) + (seq![cur] + split_acc(
                        path@.skip(i as int + 1),
                        Seq::<char>::empty(),
                    )));
                }
                out.push(seg_string);
                in_seg = false;
            }
        } else {
            if !in_seg {
                seg_start = i;
                in_seg = true;
            }
            proof {
                assert(path@.subrange(seg_start as int, i as int + 1) =~= cur.push(path@[i as int]));
            }
        }
        i += 1;
    }
    proof {
        assert(path@.skip(len as int) =~= Seq::<char>::empty());
    }
    if in_seg {
        let seg = path.substring_char(seg_start, len);
        let seg_string = String::from_str(seg);
        proof {
            lemma_seq_views_push(out@, seg_string);
            assert(seq_views(out@.push(seg_string)) =~= segments(path@));
        }
        out.push(seg_string);
    } else {
        proof {
            assert(seq_views(out@) + Seq::<Seq<char>>::empty() =~= seq_views(out@));
        }
    }
    out
}

/// Trailing-slash normalization: one trailing `/` is stripped, and an empty
/// result (so also the bare root path) becomes `/`.
pub open spec fn normalize(p: Seq<char>) -> Seq<char> {
    let q = if p.len() > 0 && p[p.len() - 1] == '/' {
        p.drop_last()
    } else {
        p
    };
    if q.len() == 0 {
        seq!['/']
    } else {
        q
    }
}

/// Normalizes a request path as `normalize` describes.
pub fn normalize_path(path: &str) -> (r: String)
    ensures
        r@ == normalize(path@),
{
    let len = path.unicode_len();
    if len > 0 && path.get_char(len - 1) == '/' {
        if len == 1 {
            let root = String::from_str("/");
            proof {
                reveal_strlit("/");
                assert(root@ =~= seq!['/']);
                assert(path@.drop_last() =~= Seq::<char>::empty());
            }
            root
        } else {
            let stripped = path.substring_char(0, len - 1);
            proof {
                assert(stripped@ =~= path@.drop_last());
            }
            String::from_str(stripped)
        }
    } else if len == 0 {
        let root = String::from_str("/");
        proof {
            reveal_strlit("/");
            assert(root@ =~= seq!['/']);
        }
        root
    } else {
        String::from_str(path)
    }
}

/// The name enclosed by the `{` `}` delimiters of a placeholder segment.
pub open spec fn placeholder_name(seg: Seq<char>) -> Seq<char> {
    seg.subrange(1, seg.len() - 1)
}

/// A segment is a placeholder only when it is wrapped in `{` `}` and the
/// enclosed name is one of the route's declared parameter names; a segment
/// that merely looks like a placeholder stays literal.
pub open spec fn is_placeholder(seg: Seq<char>, params: Seq<Seq<char>>) -> bool {
    &&& seg.len() >= 2
    &&& seg[0] == '{'
    &&& seg[seg.len() - 1] == '}'
    &&& params.contains(placeholder_name(seg))
}

/// Whether some declared parameter name equals `s`.
pub fn contains_str(params: &Vec<String>, s: &str) -> (r: bool)
    ensures
        r == seq_views(params@).contains(s@),
{
    let mut i: usize = 0;
    while i < params.len()
        invariant
            i <= params@.len(),
            forall|j: int| 0 <= j < i ==> seq_views(params@)[j] != s@,
        decreases params@.len() - i,
    {
        if str_eq(params[i].as_str(), s) {
            proof {
                assert(seq_views(params@)[i as int] == s@);
            }
            return true;
        }
        i += 1;
    }
    proof {
        assert(!seq_views(params@).contains(s@)) by {
            if seq_views(params@).contains(s@) {
                let j = choose|j: int|
                    0 <= j < seq_views(params@).len() && seq_views(params@)[j] == s@;
                assert(seq_views(params@)[j] != s@);
            }
        }
    }
    false
}

/// Classifies one path segment against the declared parameter names.
pub fn seg_is_placeholder(seg: &str, params: &Vec<String>) -> (r: bool)
    ensures
        r == is_placeholder(seg@, seq_views(params@)),
{
    let len = seg.unicode_len();
    if len < 2 {
        return false;
    }
    if seg.get_char(0) != '{' {
        return false;
    }
    if seg.get_char(len - 1) != '}' {
        return false;
    }
    let name = seg.substring_char(1, len - 1);
    contains_str(params, name)
}

/// Whether `sub` occurs in `s` starting at index `i`.
pub open spec fn occurs_at(s: Seq<char>, sub: Seq<char>, i: int) -> bool {
    &&& 0 <= i
    &&& i + sub.len() <= s.len()
    &&& s.subrange(i, i + sub.len()) == sub
}

/// The least index at or after `i` where `sub` occurs in `s`, or -1.
pub open spec fn first_occ_from(s: Seq<char>, sub: Seq<char>, i: int) -> int
    decreases s.len() - i,
        when 0 <= i <= s.len()
{
    if i + sub.len() > s.len() {
        -1
    } else if sub.len() == 0 {
        i
    } else if occurs_at(s, sub, i) {
        i
    } else {
        first_occ_from(s, sub, i + 1)
    }
}

/// `s` with the first occurrence of `sub` removed; `s` itself when `sub`
/// does not occur in it.
pub open spec fn remove_first(s: Seq<char>, sub: Seq<char>) -> Seq<char> {
    let k = first_occ_from(s, sub, 0);
    if k < 0 {
        s
    } else {
        s.take(k) + s.skip(k + sub.len())
    }
}

/// Whether `sub` occurs in `s` starting exactly at `i`.
fn match_at(s: &str, sub: &str, i: usize, s_len: usize, sub_len: usize) -> (r: bool)
    requires
        s_len == s@.len(),
        sub_len == sub@.len(),
        i + sub_len <= s_len,
    ensures
        r == occurs_at(s@, sub@, i as int),
{
    let mut j: usize = 0;
    while j < sub_len
        invariant
            j <= sub_len,
            s_len == s@.len(),
            sub_len == sub@.len(),
            i + sub_len <= s_len,
            forall|k: int| 0 <= k < j ==> s@[i + k] == sub@[k],
        decreases sub_len - j,
    {
        if s.get_char(i + j) != sub.get_char(j) {
            proof {
                assert(!occurs_at(s@, sub@, i as int)) by {
                    if occurs_at(s@, sub@, i as int) {
                        assert(s@.subrange(i as int, i + sub@.len())[j as int] == s@[i + j]);
                    }
                }
            }
            return false;
        }
        j += 1;
    }
    proof {
        assert(s@.subrange(i as int, i + sub@.len()) =~= sub@);
    }
    true
}

/// Removes the first occurrence of `sub` from `s`, as `remove_first` states.
pub fn remove_first_occurrence(s: &str, sub: &str) -> (r: String)
    ensures
        r@ == remove_first(s@, sub@),
{
    let s_len = s.unicode_len();
    let sub_len = sub.unicode_len();
    if sub_len > s_len {
        return String::from_str(s);
    }
    if sub_len == 0 {
        proof {
            assert(first_occ_from(s@, sub@, 0) == 0);
            assert(s@.take(0) + s@.skip(0) =~= s@);
        }
        return String::from_str(s);
    }
    let mut i: usize = 0;
    while i <= s_len - sub_len
        invariant
            0 <= i <= s_len - sub_len + 1,
            0 < sub_len <= s_len,
            s_len == s@.len(),
            sub_len == sub@.len(),
            first_occ_from(s@, sub@, 0) == first_occ_from(s@, sub@, i as int),
        decreases s_len - i,
    {
        if match_at(s, sub, i, s_len, sub_len) {
            let pre = s.substring_char(0, i);
            let post = s.substring_char(i + sub_len, s_len);
            let mut out = String::from_str(pre);
            out.append(post);
            proof {
                assert(first_occ_from(s@, sub@, i as int) == i);
                assert(pre@ =~= s@.take(i as int));
                assert(post@ =~= s@.skip(i as int + sub@.len()));
            }
            return out;
        }
        proof {
            assert(first_occ_from(s@, sub@, i as int) == first_occ_from(s@, sub@, i as int + 1));
        }
        i += 1;
    }
    proof {
        assert(first_occ_from(s@, sub@, i as int) == -1);
    }
    String::from_str(s)
}

} // verus!
