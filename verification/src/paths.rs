use vstd::prelude::*;

use vstd::string::StrSliceExecFns;
use vstd::string::StringExecFns;

verus! {

/// `p` is a prefix of `q`.
pub open spec fn is_prefix_of(p: Seq<char>, q: Seq<char>) -> bool {
    p.len() <= q.len() && q.subrange(0, p.len() as int) == p
}

/// `q` with the prefix `oldp` replaced by `newp`.
pub open spec fn replace_prefix(q: Seq<char>, oldp: Seq<char>, newp: Seq<char>) -> Seq<char> {
    newp + q.skip(oldp.len() as int)
}

/// A path in directory form: nonempty, with a trailing slash.
pub open spec fn is_dir_path(p: Seq<char>) -> bool {
    p.len() > 0 && p[p.len() - 1] == '/'
}

/// The path without its trailing slash, if it has one.
pub open spec fn trim_slash(p: Seq<char>) -> Seq<char> {
    if is_dir_path(p) {
        p.take(p.len() - 1)
    } else {
        p
    }
}

/// The index of the last slash in `p`, or -1 when there is none.
pub open spec fn last_slash(p: Seq<char>) -> int
    decreases p.len(),
{
    if p.len() == 0 {
        -1
    } else if p[p.len() - 1] == '/' {
        p.len() - 1
    } else {
        last_slash(p.drop_last())
    }
}

/// `last_slash` finds the rightmost slash: a slash stands there and none after it.
pub proof fn lemma_last_slash(p: Seq<char>)
    ensures
        last_slash(p) == -1 ==> forall|j: int| 0 <= j < p.len() ==> p[j] != '/',
        last_slash(p) != -1 ==> 0 <= last_slash(p) < p.len() && p[last_slash(p)] == '/' && forall|
            j: int,
        |
            last_slash(p) < j < p.len() ==> p[j] != '/',
    decreases p.len(),
{
    if p.len() == 0 {
    } else if p[p.len() - 1] == '/' {
    } else {
        lemma_last_slash(p.drop_last());
        assert forall|j: int| last_slash(p) < j < p.len() implies p[j] != '/' by {
            if j < p.len() - 1 {
                assert(p.drop_last()[j] == p[j]);
            }
        }
        assert forall|j: int| last_slash(p) == -1 && 0 <= j < p.len() implies p[j] != '/' by {
            if j < p.len() - 1 {
                assert(p.drop_last()[j] == p[j]);
            }
        }
    }
}

/// The final path component, without any trailing slash.
pub open spec fn base_name_of(p: Seq<char>) -> Seq<char> {
    trim_slash(p).skip(last_slash(trim_slash(p)) + 1)
}

/// Everything up to and including the last slash before the final component.
pub open spec fn dir_prefix_of(p: Seq<char>) -> Seq<char> {
    trim_slash(p).take(last_slash(trim_slash(p)) + 1)
}

/// The path with its final component replaced by `new_name`,
/// keeping the directory form of the original.
pub open spec fn rename_path(p: Seq<char>, new_name: Seq<char>) -> Seq<char> {
    dir_prefix_of(p) + new_name + if is_dir_path(p) {
        seq!['/']
    } else {
        Seq::<char>::empty()
    }
}

/// `p` lies directly inside the directory path `dir`: it extends `dir` and
/// the remainder holds no slash except possibly as its final character.
pub open spec fn is_child_path(dir: Seq<char>, p: Seq<char>) -> bool {
    &&& is_prefix_of(dir, p)
    &&& p.len() > dir.len()
    &&& forall|j: int| dir.len() <= j < p.len() - 1 ==> p[j] != '/'
}

/// The index of the last dot in `p`, or -1 when there is none.
pub open spec fn last_dot(p: Seq<char>) -> int
    decreases p.len(),
{
    if p.len() == 0 {
        -1
    } else if p[p.len() - 1] == '.' {
        p.len() - 1
    } else {
        last_dot(p.drop_last())
    }
}

/// `last_dot` finds the rightmost dot: a dot stands there and none after it.
pub proof fn lemma_last_dot(p: Seq<char>)
    ensures
        last_dot(p) == -1 ==> forall|j: int| 0 <= j < p.len() ==> p[j] != '.',
        last_dot(p) != -1 ==> 0 <= last_dot(p) < p.len() && p[last_dot(p)] == '.' && forall|j: int|
            last_dot(p) < j < p.len() ==> p[j] != '.',
    decreases p.len(),
{
    if p.len() == 0 {
    } else if p[p.len() - 1] == '.' {
    } else {
        lemma_last_dot(p.drop_last());
        assert forall|j: int| last_dot(p) < j < p.len() implies p[j] != '.' by {
            if j < p.len() - 1 {
                assert(p.drop_last()[j] == p[j]);
            }
        }
        assert forall|j: int| last_dot(p) == -1 && 0 <= j < p.len() implies p[j] != '.' by {
            if j < p.len() - 1 {
                assert(p.drop_last()[j] == p[j]);
            }
        }
    }
}

/// The extension of an entry name: what follows the last dot, or empty when
/// there is no dot or the only dot opens the name.
pub open spec fn extension_of(n: Seq<char>) -> Seq<char> {
    if last_dot(n) <= 0 {
        Seq::<char>::empty()
    } else {
        n.skip(last_dot(n) + 1)
    }
}

/// The index of the last dot of `s`, if any.
pub fn last_dot_index(s: &str) -> (r: Option<usize>)
    ensures
        match r {
            Some(i) => i as int == last_dot(s@) && (i as nat) < s@.len(),
            None => last_dot(s@) == -1,
        },
{
    let l: usize = s.unicode_len();
    let mut i: usize = l;
    while i > 0
        invariant
            i <= l,
            l as nat == s@.len(),
            forall|j: int| i <= j < l ==> s@[j] != '.',
        decreases i,
    {
        i = i - 1;
        if s.get_char(i) == '.' {
            proof {
                lemma_last_dot(s@);
                let r = last_dot(s@);
                assert(s@[i as int] == '.');
                if r < i {
                    assert(s@[i as int] != '.');
                }
                if r > i {
                    assert(s@[r] != '.');
                }
            }
            return Some(i);
        }
    }
    proof {
        lemma_last_dot(s@);
        let r = last_dot(s@);
        if r != -1 {
            assert(s@[r] != '.');
        }
    }
    None
}

/// The extension of an entry name.
pub fn extension_str(n: &str) -> (r: String)
    ensures
        r@ == extension_of(n@),
{
    let l: usize = n.unicode_len();
    proof {
        reveal_strlit("");
    }
    match last_dot_index(n) {
        None => "".to_owned(),
        Some(i) => {
            if i == 0 {
                "".to_owned()
            } else {
                let tail: &str = n.substring_char(i + 1, l);
                proof {
                    assert(tail@ =~= n@.skip(i + 1));
                }
                tail.to_owned()
            }
        },
    }
}

/// The slash-separated segments of a path, as splitting on the slash yields
/// them: an empty path has one empty segment, and every slash opens a new
/// segment.
pub open spec fn segments(p: Seq<char>) -> Seq<Seq<char>>
    decreases p.len(),
{
    if p.len() == 0 {
        seq![Seq::<char>::empty()]
    } else if p[0] == '/' {
        seq![Seq::<char>::empty()] + segments(p.skip(1))
    } else {
        seq![seq![p[0]] + segments(p.skip(1))[0]] + segments(p.skip(1)).skip(1)
    }
}

/// A path always has at least one segment.
pub proof fn lemma_segments_nonempty(p: Seq<char>)
    ensures
        segments(p).len() >= 1,
    decreases p.len(),
{
    if p.len() > 0 {
        lemma_segments_nonempty(p.skip(1));
    }
}

/// The segments joined back with slashes.
pub open spec fn joined(segs: Seq<Seq<char>>) -> Seq<char>
    decreases segs.len(),
{
    if segs.len() == 0 {
        Seq::<char>::empty()
    } else if segs.len() == 1 {
        segs[0]
    } else {
        joined(segs.drop_last()) + seq!['/'] + segs.last()
    }
}

/// Joining after putting a segment in front prefixes it with a slash in
/// between.
pub proof fn lemma_joined_cons(a: Seq<char>, s: Seq<Seq<char>>)
    requires
        s.len() >= 1,
    ensures
        joined(seq![a] + s) == a + seq!['/'] + joined(s),
    decreases s.len(),
{
    if s.len() == 1 {
        assert((seq![a] + s).drop_last() =~= seq![a]);
        assert((seq![a] + s).len() == 2);
        assert((seq![a] + s).last() == s[0]);
        assert(joined(seq![a]) == a);
        assert(joined(s) == s[0]);
        assert(joined(seq![a] + s) =~= a + seq!['/'] + joined(s));
    } else {
        lemma_joined_cons(a, s.drop_last());
        assert((seq![a] + s).drop_last() =~= seq![a] + s.drop_last());
        assert((seq![a] + s).last() == s.last());
        assert(joined(seq![a] + s) =~= a + seq!['/'] + joined(s));
    }
}

/// Splitting a path and joining the segments gives the path back.
pub proof fn lemma_segments_join(p: Seq<char>)
    ensures
        joined(segments(p)) == p,
    decreases p.len(),
{
    if p.len() == 0 {
    } else if p[0] == '/' {
        lemma_segments_join(p.skip(1));
        lemma_segments_nonempty(p.skip(1));
        lemma_joined_cons(Seq::<char>::empty(), segments(p.skip(1)));
        assert(joined(segments(p)) =~= p);
    } else {
        lemma_segments_join(p.skip(1));
        lemma_segments_nonempty(p.skip(1));
        let inner = segments(p.skip(1));
        if inner.len() == 1 {
            assert(segments(p) =~= seq![seq![p[0]] + inner[0]]);
            assert(joined(segments(p)) =~= p);
        } else {
            lemma_joined_cons(inner[0], inner.skip(1));
            assert(seq![inner[0]] + inner.skip(1) =~= inner);
            lemma_joined_cons(seq![p[0]] + inner[0], inner.skip(1));
            assert(joined(segments(p)) =~= seq![p[0]] + joined(inner));
            assert(seq![p[0]] + p.skip(1) =~= p);
        }
    }
}

/// Splits a path into its slash-separated segments.
pub fn split_segments(p: &str) -> (r: Vec<String>)
    ensures
        r.deep_view() == segments(p@),
        r@.len() >= 1,
{
    proof {
        reveal_strlit("");
    }
    let l: usize = p.unicode_len();
    let mut done: Vec<String> = Vec::new();
    let mut cur: String = String::new();
    proof {
        assert(p@.skip(0) =~= p@);
        lemma_segments_nonempty(p@);
        assert(done.deep_view() =~= Seq::<Seq<char>>::empty());
        assert(segments(p@) =~= done.deep_view() + seq![cur@ + segments(p@.skip(0))[0]] + segments(
            p@.skip(0),
        ).skip(1));
    }
    let mut i: usize = 0;
    while i < l
        invariant
            i <= l,
            l as nat == p@.len(),
            segments(p@) == done.deep_view() + seq![cur@ + segments(p@.skip(i as int))[0]]
                + segments(p@.skip(i as int)).skip(1),
        decreases l - i,
    {
        proof {
            lemma_segments_nonempty(p@.skip(i as int));
            lemma_segments_nonempty(p@.skip(i + 1));
            assert(p@.skip(i as int)[0] == p@[i as int]);
            assert(p@.skip(i as int).skip(1) =~= p@.skip(i + 1));
        }
        let c: char = p.get_char(i);
        if c == '/' {
            let ghost prev_done = done.deep_view();
            let ghost cur_v = cur@;
            done.push(cur);
            cur = String::new();
            proof {
                assert(segments(p@.skip(i as int)) =~= seq![Seq::<char>::empty()] + segments(
                    p@.skip(i + 1),
                ));
                assert(done.deep_view() =~= prev_done.push(cur_v));
                assert(segments(p@) =~= done.deep_view() + seq![cur@ + segments(p@.skip(i + 1))[0]]
                    + segments(p@.skip(i + 1)).skip(1));
            }
        } else {
            let ghost prev_cur = cur@;
            cur = append_char(cur, c);
            proof {
                assert(segments(p@.skip(i as int)) =~= seq![seq![p@[i as int]] + segments(
                    p@.skip(i + 1),
                )[0]] + segments(p@.skip(i + 1)).skip(1));
                assert(cur@ =~= prev_cur + seq![p@[i as int]]);
                assert(cur@ + segments(p@.skip(i + 1))[0] =~= prev_cur + (seq![p@[i as int]]
                    + segments(p@.skip(i + 1))[0]));
                assert(prev_cur + segments(p@.skip(i as int))[0] =~= prev_cur + (seq![p@[i as int]]
                    + segments(p@.skip(i + 1))[0]));
                assert(segments(p@) =~= done.deep_view() + seq![cur@ + segments(p@.skip(i + 1))[0]]
                    + segments(p@.skip(i + 1)).skip(1));
            }
        }
        i += 1;
    }
    proof {
        assert(p@.skip(l as int) =~= Seq::<char>::empty());
        assert(segments(p@.skip(l as int)) =~= seq![Seq::<char>::empty()]);
    }
    done.push(cur);
    proof {
        assert(done.deep_view() =~= segments(p@));
    }
    done
}

/// Relies on String::push from the standard library: appending one character
/// to the end of a string.
#[verifier::external_body]
fn append_char(s: String, c: char) -> (r: String)
    ensures
        r@ == s@.push(c),
{
    let mut s = s;
    s.push(c);
    s
}

/// A legal entry name: nonempty and without slashes.
pub open spec fn name_wf(n: Seq<char>) -> bool {
    n.len() > 0 && forall|j: int| 0 <= j < n.len() ==> n[j] != '/'
}

/// Concatenates two string slices.
pub fn concat_str(a: &str, b: &str) -> (r: String)
    ensures
        r@ == a@ + b@,
{
    a.to_owned().concat(b)
}

/// Whether `p` is a prefix of `s`.
pub fn starts_with_str(s: &str, p: &str) -> (r: bool)
    ensures
        r == is_prefix_of(p@, s@),
{
    let sl: usize = s.unicode_len();
    let pl: usize = p.unicode_len();
    if pl > sl {
        return false;
    }
    let mut i: usize = 0;
    while i < pl
        invariant
            i <= pl,
            pl <= sl,
            pl as nat == p@.len(),
            sl as nat == s@.len(),
            forall|j: int| 0 <= j < i ==> s@[j] == p@[j],
        decreases pl - i,
    {
        if s.get_char(i) != p.get_char(i) {
            proof {
                assert(s@.subrange(0, pl as int)[i as int] == s@[i as int]);
            }
            return false;
        }
        i += 1;
    }
    proof {
        assert(s@.subrange(0, pl as int) =~= p@);
    }
    true
}

/// Whether the string ends with a slash, i.e. has directory form.
pub fn ends_with_slash(s: &str) -> (r: bool)
    ensures
        r == is_dir_path(s@),
{
    let l: usize = s.unicode_len();
    l > 0 && s.get_char(l - 1) == '/'
}

/// Replaces the prefix `oldp` of `s` by `newp`.
pub fn replace_prefix_str(s: &str, oldp: &str, newp: &str) -> (r: String)
    requires
        is_prefix_of(oldp@, s@),
    ensures
        r@ == replace_prefix(s@, oldp@, newp@),
{
    let sl: usize = s.unicode_len();
    let ol: usize = oldp.unicode_len();
    let tail: &str = s.substring_char(ol, sl);
    proof {
        assert(tail@ =~= s@.skip(ol as int));
    }
    concat_str(newp, tail)
}

/// The index of the last slash of `s`, if any.
pub fn last_slash_index(s: &str) -> (r: Option<usize>)
    ensures
        match r {
            Some(i) => i as int == last_slash(s@) && (i as nat) < s@.len(),
            None => last_slash(s@) == -1,
        },
{
    let l: usize = s.unicode_len();
    let mut i: usize = l;
    while i > 0
        invariant
            i <= l,
            l as nat == s@.len(),
            forall|j: int| i <= j < l ==> s@[j] != '/',
        decreases i,
    {
        i = i - 1;
        if s.get_char(i) == '/' {
            proof {
                lemma_last_slash(s@);
                let r = last_slash(s@);
                assert(s@[i as int] == '/');
                if r < i {
                    assert(s@[i as int] != '/');
                }
                if r > i {
                    assert(s@[r] != '/');
                }
            }
            return Some(i);
        }
    }
    proof {
        lemma_last_slash(s@);
        let r = last_slash(s@);
        if r != -1 {
            assert(s@[r] != '/');
        }
    }
    None
}

/// The final component of the path, without any trailing slash.
pub fn base_name_str(p: &str) -> (r: String)
    ensures
        r@ == base_name_of(p@),
{
    let l: usize = p.unicode_len();
    let t: &str = if l > 0 && p.get_char(l - 1) == '/' {
        p.substring_char(0, l - 1)
    } else {
        p
    };
    proof {
        assert(t@ =~= trim_slash(p@));
    }
    let tl: usize = t.unicode_len();
    match last_slash_index(t) {
        None => {
            proof {
                assert(t@.skip(0) =~= t@);
            }
            t.to_owned()
        },
        Some(i) => {
            let tail: &str = t.substring_char(i + 1, tl);
            proof {
                assert(tail@ =~= t@.skip(i + 1));
            }
            tail.to_owned()
        },
    }
}

/// The path with its final component replaced by `new_name`.
pub fn rename_target(p: &str, new_name: &str) -> (r: String)
    ensures
        r@ == rename_path(p@, new_name@),
{
    let l: usize = p.unicode_len();
    let is_dir: bool = l > 0 && p.get_char(l - 1) == '/';
    let t: &str = if is_dir {
        p.substring_char(0, l - 1)
    } else {
        p
    };
    proof {
        assert(t@ =~= trim_slash(p@));
        reveal_strlit("");
        reveal_strlit("/");
    }
    let tl: usize = t.unicode_len();
    let prefix: &str = match last_slash_index(t) {
        None => "",
        Some(i) => t.substring_char(0, i + 1),
    };
    proof {
        assert(prefix@ =~= dir_prefix_of(p@));
    }
    let joined: String = concat_str(prefix, new_name);
    if is_dir {
        let r: String = joined.concat("/");
        proof {
            assert(r@ =~= rename_path(p@, new_name@));
        }
        r
    } else {
        proof {
            assert(joined@ =~= rename_path(p@, new_name@));
        }
        joined
    }
}

/// Whether `p` is a direct child of the directory path `dir`.
pub fn is_child_of_str(dir: &str, p: &str) -> (r: bool)
    ensures
        r == is_child_path(dir@, p@),
{
    if !starts_with_str(p, dir) {
        return false;
    }
    let dl: usize = dir.unicode_len();
    let pl: usize = p.unicode_len();
    if pl <= dl {
        return false;
    }
    let mut j: usize = dl;
    while j < pl - 1
        invariant
            dl <= j <= pl,
            j < pl,
            dl as nat == dir@.len(),
            pl as nat == p@.len(),
            forall|k: int| dl <= k < j ==> p@[k] != '/',
        decreases pl - j,
    {
        if p.get_char(j) == '/' {
            return false;
        }
        j += 1;
    }
    true
}

/// Whether `n` is a legal entry name: nonempty and slash-free.
pub fn name_ok(n: &str) -> (r: bool)
    ensures
        r == name_wf(n@),
{
    let l: usize = n.unicode_len();
    if l == 0 {
        return false;
    }
    let mut i: usize = 0;
    while i < l
        invariant
            i <= l,
            l as nat == n@.len(),
            forall|j: int| 0 <= j < i ==> n@[j] != '/',
        decreases l - i,
    {
        if n.get_char(i) == '/' {
            return false;
        }
        i += 1;
    }
    true
}

} // verus!
